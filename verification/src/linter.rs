//! Lint rules for SQL documents.
//!
//! The linter walks the syntax tree and reports:
//!  * text that the grammar cannot parse (except a parameterized
//!    `LIMIT $n OFFSET $n`, which the grammar does not represent);
//!  * UPDATE and DELETE without WHERE;
//!  * `SELECT *`;
//!  * LIMIT without ORDER BY;
//!  * a subquery in FROM without an alias;
//!  * `= NULL`, an empty `IN ()`, and a literal compared with an equal literal;
//!  * a SELECT whose column list is missing.
use vstd::prelude::*;
use crate::parser::{
    first_child_of_kind, first_of_kind, has_child_of_kind, has_kind, kind_is, lemma_view_children,
    SqlNode, SqlTree,
};
use crate::text::{
    ascii_lower, chars_of, eq_ignore_ascii_case, eq_ignore_ascii_case_chars, matches_ignore_case,
    matches_ignore_case_at, extend_chars, push_str,
    starts_with, starts_with_str, string_of, trim, trim_chars, uppercase, uppercase_chars,
};

verus! {

/// A finding of the linter at a zero-based line and column.
#[derive(Debug)]
pub struct Diagnostic {
    pub line: u32,
    pub col: u32,
    pub message: String,
    pub is_error: bool,
}

/// The mathematical value of a [`Diagnostic`].
pub struct Finding {
    pub line: u32,
    pub col: u32,
    pub message: Seq<char>,
    pub is_error: bool,
}

impl View for Diagnostic {
    type V = Finding;

    open spec fn view(&self) -> Finding {
        Finding { line: self.line, col: self.col, message: self.message@, is_error: self.is_error }
    }
}

/// A finding at the start of `t`.
pub open spec fn finding_at(t: SqlTree, message: Seq<char>, is_error: bool) -> Finding {
    Finding { line: t.start_row as u32, col: t.start_column as u32, message, is_error }
}

/// The message for text that could not be parsed.
pub open spec fn syntax_error_message(t: SqlTree) -> Seq<char> {
    let raw = trim(t.text);
    if raw.len() == 0 {
        "Syntax error"@
    } else {
        "Syntax error near '"@ + raw + "'"@
    }
}

/// Whether some node of `nodes` has kind `kind` and a child of kind `inner`.
pub open spec fn has_kind_with_child(nodes: Seq<SqlTree>, kind: Seq<char>, inner: Seq<char>) -> bool {
    exists|i: int|
        0 <= i < nodes.len() && #[trigger] nodes[i].kind == kind && has_kind(nodes[i].children, inner)
}

/// Whether some node of `nodes` is a `list` holding just `(` and `)`.
pub open spec fn has_empty_list(nodes: Seq<SqlTree>) -> bool {
    exists|i: int|
        0 <= i < nodes.len() && #[trigger] nodes[i].kind == "list"@ && nodes[i].children.len() == 2
            && nodes[i].children[0].kind == "("@ && nodes[i].children[1].kind == ")"@
}

/// The nodes of `nodes` with kind `kind`, in order.
pub open spec fn of_kind(nodes: Seq<SqlTree>, kind: Seq<char>) -> Seq<SqlTree>
    decreases nodes.len(),
{
    if nodes.len() == 0 {
        seq![]
    } else {
        let r = of_kind(nodes.drop_last(), kind);
        if nodes.last().kind == kind {
            r.push(nodes.last())
        } else {
            r
        }
    }
}

/// The findings of a binary expression: `= NULL`, `IN ()`, and a literal
/// compared for equality with an equal literal (ASCII letters compared
/// without case).
pub open spec fn binary_expression_findings(t: SqlTree) -> Seq<Finding> {
    let ch = t.children;
    let has_eq = has_kind(ch, "="@);
    let null_rule = if has_eq && has_kind_with_child(ch, "literal"@, "keyword_null"@) {
        seq![finding_at(t, "Use IS NULL / IS NOT NULL instead of = NULL"@, true)]
    } else {
        seq![]
    };
    let in_rule = if has_kind(ch, "keyword_in"@) && has_empty_list(ch) {
        seq![finding_at(t, "IN () with empty list — condition is always false"@, true)]
    } else {
        seq![]
    };
    let lits = of_kind(ch, "literal"@);
    let always_rule = if has_eq && lits.len() == 2 && eq_ignore_ascii_case(
        trim(lits[0].text),
        trim(lits[1].text),
    ) {
        seq![
            finding_at(
                t,
                "Condition '"@ + trim(lits[0].text) + " = "@ + trim(lits[1].text)
                    + "' is always true — likely debug code"@,
                false,
            ),
        ]
    } else {
        seq![]
    };
    null_rule + in_rule + always_rule
}

/// Whether `s` starts with a keyword that begins a clause after the columns.
/// Whether `s` begins with a clause keyword (FROM, WHERE, GROUP, ORDER,
/// HAVING, LIMIT) and a space, its letters in any ASCII case.
pub open spec fn starts_with_clause_keyword_any_case(s: Seq<char>) -> bool {
    ||| matches_ignore_case_at(s, 0, "FROM "@)
    ||| matches_ignore_case_at(s, 0, "WHERE "@)
    ||| matches_ignore_case_at(s, 0, "GROUP "@)
    ||| matches_ignore_case_at(s, 0, "ORDER "@)
    ||| matches_ignore_case_at(s, 0, "HAVING "@)
    ||| matches_ignore_case_at(s, 0, "LIMIT "@)
}

fn starts_with_clause_keyword_any_case_chars(s: &Vec<char>) -> (r: bool)
    ensures
        r == starts_with_clause_keyword_any_case(s@),
{
    matches_ignore_case(s, 0, &chars_of("FROM ")) || matches_ignore_case(s, 0, &chars_of("WHERE "))
        || matches_ignore_case(s, 0, &chars_of("GROUP ")) || matches_ignore_case(
        s,
        0,
        &chars_of("ORDER "),
    ) || matches_ignore_case(s, 0, &chars_of("HAVING ")) || matches_ignore_case(
        s,
        0,
        &chars_of("LIMIT "),
    )
}

pub open spec fn starts_with_clause_keyword(s: Seq<char>) -> bool {
    ||| starts_with(s, "FROM "@)
    ||| starts_with(s, "WHERE "@)
    ||| starts_with(s, "GROUP "@)
    ||| starts_with(s, "ORDER "@)
    ||| starts_with(s, "HAVING "@)
    ||| starts_with(s, "LIMIT "@)
}

/// The findings of a node that parsed, apart from those of its children.
pub open spec fn node_findings(t: SqlTree) -> Seq<Finding> {
    let ch = t.children;
    if t.kind == "update"@ {
        if !has_kind(ch, "where"@) {
            seq![finding_at(t, "UPDATE without WHERE clause — this will update all rows"@, false)]
        } else {
            seq![]
        }
    } else if t.kind == "statement"@ {
        if has_kind(ch, "delete"@) && !has_kind_with_child(ch, "from"@, "where"@) {
            seq![finding_at(t, "DELETE without WHERE clause — this will delete all rows"@, false)]
        } else {
            seq![]
        }
    } else if t.kind == "all_fields"@ {
        seq![finding_at(t, "Avoid SELECT *, specify columns explicitly"@, false)]
    } else if t.kind == "from"@ {
        if has_kind(ch, "limit"@) && !has_kind(ch, "order_by"@) {
            match first_of_kind(ch, "limit"@) {
                Some(l) => seq![
                    finding_at(l, "LIMIT without ORDER BY may produce inconsistent results"@, false),
                ],
                None => seq![],
            }
        } else {
            seq![]
        }
    } else if t.kind == "relation"@ {
        if has_kind(ch, "subquery"@) && !has_kind(ch, "identifier"@) {
            seq![finding_at(t, "Subquery in FROM must have an alias (AS name)"@, false)]
        } else {
            seq![]
        }
    } else if t.kind == "binary_expression"@ {
        binary_expression_findings(t)
    } else if t.kind == "select_expression"@ {
        if starts_with_clause_keyword(uppercase(trim(t.text))) || starts_with_clause_keyword_any_case(
            trim(t.text),
        ) {
            seq![finding_at(t, "Missing column list in SELECT"@, true)]
        } else {
            seq![]
        }
    } else {
        seq![]
    }
}

/// The findings of `t` and its descendants, in preorder. Unparsed text gives
/// one syntax error and its children are not examined; unparsed text that
/// begins with LIMIT gives nothing.
pub open spec fn lint_tree(t: SqlTree) -> Seq<Finding>
    decreases t, 0int,
{
    if t.is_error {
        if t.children.len() > 0 && t.children[0].kind == "keyword_limit"@ {
            seq![]
        } else {
            seq![finding_at(t, syntax_error_message(t), true)]
        }
    } else {
        node_findings(t) + lint_forest(t.children, t.children.len() as int)
    }
}

/// The findings of the first `n` trees of `ts`, in order.
pub open spec fn lint_forest(ts: Seq<SqlTree>, n: int) -> Seq<Finding>
    decreases ts, n,
{
    if n <= 0 || n > ts.len() {
        seq![]
    } else {
        lint_forest(ts, n - 1) + lint_tree(ts[n - 1])
    }
}

/// The findings for `source`: those of its syntax tree, or none when the
/// grammar gives no tree.
pub open spec fn lint_findings(source: Seq<char>) -> Seq<Finding> {
    match crate::parser::syntax_tree(source) {
        Some(t) => lint_tree(t),
        None => seq![],
    }
}

/// The values of a list of diagnostics.
pub open spec fn finding_views(ds: Seq<Diagnostic>) -> Seq<Finding> {
    ds.map_values(|d: Diagnostic| d@)
}

fn diagnostic_at(node: &SqlNode, message: String, is_error: bool) -> (d: Diagnostic)
    ensures
        d@ == finding_at(node@, message@, is_error),
{
    Diagnostic {
        line: node.start_row as u32,
        col: node.start_column as u32,
        message,
        is_error,
    }
}

fn push_finding(diags: &mut Vec<Diagnostic>, d: Diagnostic)
    ensures
        finding_views(final(diags)@) == finding_views(old(diags)@).push(d@),
{
    diags.push(d);
    assert(finding_views(diags@) =~= finding_views(old(diags)@).push(d@));
}

fn syntax_error_text(node: &SqlNode) -> (m: String)
    ensures
        m@ == syntax_error_message(node@),
{
    let text = chars_of(node.text.as_str());
    let raw = trim_chars(&text);
    if raw.len() == 0 {
        "Syntax error".to_owned()
    } else {
        let mut out: Vec<char> = Vec::new();
        push_str(&mut out, "Syntax error near '");
        extend_chars(&mut out, &raw);
        push_str(&mut out, "'");
        string_of(&out)
    }
}

fn has_child_with_child(node: &SqlNode, kind: &str, inner: &str) -> (r: bool)
    ensures
        r == has_kind_with_child(node@.children, kind@, inner@),
{
    proof {
        lemma_view_children(node);
    }
    let mut i: usize = 0;
    while i < node.children.len()
        invariant
            i <= node.children@.len(),
            node@.children.len() == node.children@.len(),
            forall|j: int| 0 <= j < node.children@.len() ==> #[trigger] node@.children[j] == node.children@[j]@,
            forall|j: int|
                0 <= j < i ==> !(#[trigger] node@.children[j].kind == kind@ && has_kind(
                    node@.children[j].children,
                    inner@,
                )),
        decreases node.children@.len() - i,
    {
        let c = &node.children[i];
        if kind_is(c, kind) && has_child_of_kind(c, inner) {
            assert(node@.children[i as int].kind == kind@);
            return true;
        }
        i = i + 1;
    }
    false
}

fn has_empty_list_child(node: &SqlNode) -> (r: bool)
    ensures
        r == has_empty_list(node@.children),
{
    proof {
        lemma_view_children(node);
    }
    let mut i: usize = 0;
    while i < node.children.len()
        invariant
            i <= node.children@.len(),
            node@.children.len() == node.children@.len(),
            forall|j: int| 0 <= j < node.children@.len() ==> #[trigger] node@.children[j] == node.children@[j]@,
            forall|j: int|
                0 <= j < i ==> !(#[trigger] node@.children[j].kind == "list"@
                    && node@.children[j].children.len() == 2 && node@.children[j].children[0].kind
                    == "("@ && node@.children[j].children[1].kind == ")"@),
        decreases node.children@.len() - i,
    {
        let c = &node.children[i];
        proof {
            lemma_view_children(c);
        }
        if kind_is(c, "list") && c.children.len() == 2 && kind_is(&c.children[0], "(") && kind_is(
            &c.children[1],
            ")",
        ) {
            assert(node@.children[i as int].kind == "list"@);
            return true;
        }
        i = i + 1;
    }
    false
}

fn literal_children<'a>(node: &'a SqlNode) -> (r: Vec<&'a SqlNode>)
    ensures
        r@.map_values(|n: &SqlNode| n@) == of_kind(node@.children, "literal"@),
{
    proof {
        lemma_view_children(node);
    }
    let mut r: Vec<&SqlNode> = Vec::new();
    let mut i: usize = 0;
    while i < node.children.len()
        invariant
            i <= node.children@.len(),
            node@.children.len() == node.children@.len(),
            forall|j: int| 0 <= j < node.children@.len() ==> #[trigger] node@.children[j] == node.children@[j]@,
            r@.map_values(|n: &SqlNode| n@) == of_kind(node@.children.take(i as int), "literal"@),
        decreases node.children@.len() - i,
    {
        let c = &node.children[i];
        assert(node@.children.take(i + 1).drop_last() =~= node@.children.take(i as int));
        assert(node@.children.take(i + 1).last() == c@);
        if kind_is(c, "literal") {
            let ghost before = r@.map_values(|n: &SqlNode| n@);
            r.push(c);
            assert(r@.map_values(|n: &SqlNode| n@) =~= before.push(c@));
        }
        i = i + 1;
    }
    assert(node@.children.take(i as int) =~= node@.children);
    r
}

fn binary_expression_diagnostics(node: &SqlNode, diags: &mut Vec<Diagnostic>)
    ensures
        finding_views(final(diags)@) == finding_views(old(diags)@) + binary_expression_findings(
            node@,
        ),
{
    let ghost start = finding_views(diags@);
    let has_eq = has_child_of_kind(node, "=");
    let ghost t = node@;
    if has_eq && has_child_with_child(node, "literal", "keyword_null") {
        let d = diagnostic_at(node, "Use IS NULL / IS NOT NULL instead of = NULL".to_owned(), true);
        push_finding(diags, d);
    }
    let ghost after_null = finding_views(diags@);
    if has_child_of_kind(node, "keyword_in") && has_empty_list_child(node) {
        let d = diagnostic_at(
            node,
            "IN () with empty list — condition is always false".to_owned(),
            true,
        );
        push_finding(diags, d);
    }
    let ghost after_in = finding_views(diags@);
    let lits = literal_children(node);
    let ghost lit_views = lits@.map_values(|n: &SqlNode| n@);
    if has_eq && lits.len() == 2 {
        assert(lit_views[0] == lits@[0]@);
        assert(lit_views[1] == lits@[1]@);
        let lhs_text = chars_of(lits[0].text.as_str());
        let rhs_text = chars_of(lits[1].text.as_str());
        let lhs = trim_chars(&lhs_text);
        let rhs = trim_chars(&rhs_text);
        if eq_ignore_ascii_case_chars(&lhs, &rhs) {
            let mut m: Vec<char> = Vec::new();
            push_str(&mut m, "Condition '");
            extend_chars(&mut m, &lhs);
            push_str(&mut m, " = ");
            extend_chars(&mut m, &rhs);
            push_str(&mut m, "' is always true — likely debug code");
            let d = diagnostic_at(node, string_of(&m), false);
            push_finding(diags, d);
        }
    }
    proof {
        let ch = t.children;
        let null_rule = if has_eq && has_kind_with_child(ch, "literal"@, "keyword_null"@) {
            seq![finding_at(t, "Use IS NULL / IS NOT NULL instead of = NULL"@, true)]
        } else {
            seq![]
        };
        assert(after_null =~= start + null_rule);
        let in_rule = if has_kind(ch, "keyword_in"@) && has_empty_list(ch) {
            seq![finding_at(t, "IN () with empty list — condition is always false"@, true)]
        } else {
            seq![]
        };
        assert(after_in =~= start + null_rule + in_rule);
        assert(finding_views(diags@) =~= start + binary_expression_findings(t));
    }
}

fn starts_with_clause_keyword_chars(s: &Vec<char>) -> (r: bool)
    ensures
        r == starts_with_clause_keyword(s@),
{
    starts_with_str(s, "FROM ") || starts_with_str(s, "WHERE ") || starts_with_str(s, "GROUP ")
        || starts_with_str(s, "ORDER ") || starts_with_str(s, "HAVING ") || starts_with_str(
        s,
        "LIMIT ",
    )
}

fn node_diagnostics(node: &SqlNode, diags: &mut Vec<Diagnostic>)
    requires
        !node@.is_error,
    ensures
        finding_views(final(diags)@) == finding_views(old(diags)@) + node_findings(node@),
{
    let ghost start = finding_views(diags@);
    if kind_is(node, "update") {
        if !has_child_of_kind(node, "where") {
            let d = diagnostic_at(
                node,
                "UPDATE without WHERE clause — this will update all rows".to_owned(),
                false,
            );
            push_finding(diags, d);
        }
    } else if kind_is(node, "statement") {
        if has_child_of_kind(node, "delete") && !has_child_with_child(node, "from", "where") {
            let d = diagnostic_at(
                node,
                "DELETE without WHERE clause — this will delete all rows".to_owned(),
                false,
            );
            push_finding(diags, d);
        }
    } else if kind_is(node, "all_fields") {
        let d = diagnostic_at(node, "Avoid SELECT *, specify columns explicitly".to_owned(), false);
        push_finding(diags, d);
    } else if kind_is(node, "from") {
        if has_child_of_kind(node, "limit") && !has_child_of_kind(node, "order_by") {
            if let Some(limit) = first_child_of_kind(node, "limit") {
                let d = diagnostic_at(
                    limit,
                    "LIMIT without ORDER BY may produce inconsistent results".to_owned(),
                    false,
                );
                push_finding(diags, d);
            }
        }
    } else if kind_is(node, "relation") {
        if has_child_of_kind(node, "subquery") && !has_child_of_kind(node, "identifier") {
            let d = diagnostic_at(
                node,
                "Subquery in FROM must have an alias (AS name)".to_owned(),
                false,
            );
            push_finding(diags, d);
        }
    } else if kind_is(node, "binary_expression") {
        binary_expression_diagnostics(node, diags);
    } else if kind_is(node, "select_expression") {
        let text = chars_of(node.text.as_str());
        let trimmed = trim_chars(&text);
        let upper = uppercase_chars(&trimmed);
        if starts_with_clause_keyword_chars(&upper) || starts_with_clause_keyword_any_case_chars(
            &trimmed,
        ) {
            let d = diagnostic_at(node, "Missing column list in SELECT".to_owned(), true);
            push_finding(diags, d);
        }
    }
    assert(finding_views(diags@) =~= start + node_findings(node@));
}

/// Appends the findings of `node` and its descendants to `diags`, in preorder:
/// what `diags` held stays in front.
pub fn walk(node: &SqlNode, diags: &mut Vec<Diagnostic>)
    ensures
        finding_views(final(diags)@) == finding_views(old(diags)@) + lint_tree(node@),
    decreases node@,
{
    let ghost start = finding_views(diags@);
    proof {
        lemma_view_children(node);
    }
    if node.is_error {
        if node.children.len() > 0 && kind_is(&node.children[0], "keyword_limit") {
            assert(finding_views(diags@) =~= start + lint_tree(node@));
            return;
        }
        let m = syntax_error_text(node);
        let d = diagnostic_at(node, m, true);
        push_finding(diags, d);
        return;
    }
    node_diagnostics(node, diags);
    let ghost own = finding_views(diags@);
    let mut i: usize = 0;
    while i < node.children.len()
        invariant
            i <= node.children@.len(),
            node@.children.len() == node.children@.len(),
            forall|j: int| 0 <= j < node.children@.len() ==> #[trigger] node@.children[j] == node.children@[j]@,
            own == start + node_findings(node@),
            finding_views(diags@) == own + lint_forest(node@.children, i as int),
        decreases node.children@.len() - i,
    {
        let child = &node.children[i];
        assert(node@.children[i as int] == child@);
        assert(decreases_to!(node@ => node@.children[i as int]));
        walk(child, diags);
        assert(lint_forest(node@.children, i + 1) == lint_forest(node@.children, i as int)
            + lint_tree(child@));
        i = i + 1;
    }
    assert(finding_views(diags@) =~= start + lint_tree(node@));
}

/// Lints a document from its syntax tree.
pub fn lint_tree_of(root: &SqlNode) -> (diags: Vec<Diagnostic>)
    ensures
        finding_views(diags@) == lint_tree(root@),
{
    let mut diags: Vec<Diagnostic> = Vec::new();
    assert(finding_views(diags@) =~= seq![]);
    walk(root, &mut diags);
    diags
}

/// Lints SQL text: the findings of its syntax tree, in preorder.
pub fn lint_sql(source: &str) -> (diags: Vec<Diagnostic>)
    ensures
        finding_views(diags@) == lint_findings(source@),
{
    match crate::parser::parse_sql(source) {
        Some(root) => lint_tree_of(&root),
        None => {
            let diags: Vec<Diagnostic> = Vec::new();
            assert(finding_views(diags@) =~= seq![]);
            diags
        },
    }
}

/// Text that could not be parsed gives at most one finding, an error, and
/// nothing from inside it; unless it begins with LIMIT, that finding is the
/// syntax error at its start.
pub proof fn law_unparsed_text_is_one_error(t: SqlTree)
    requires
        t.is_error,
    ensures
        lint_tree(t).len() <= 1,
        forall|i: int| 0 <= i < lint_tree(t).len() ==> (#[trigger] lint_tree(t)[i]).is_error,
        !(t.children.len() > 0 && t.children[0].kind == "keyword_limit"@) ==> lint_tree(t) == seq![
            finding_at(t, syntax_error_message(t), true),
        ],
{
}

/// An UPDATE without WHERE is warned about first, at its start.
pub proof fn law_update_without_where_warns(t: SqlTree)
    requires
        !t.is_error,
        t.kind == "update"@,
        !has_kind(t.children, "where"@),
    ensures
        lint_tree(t).len() > 0,
        lint_tree(t)[0] == finding_at(
            t,
            "UPDATE without WHERE clause — this will update all rows"@,
            false,
        ),
{
}

/// An UPDATE with a WHERE is not warned about for lacking one: its own
/// findings are empty.
pub proof fn law_update_with_where_is_quiet(t: SqlTree)
    requires
        t.kind == "update"@,
        has_kind(t.children, "where"@),
    ensures
        node_findings(t) == Seq::<Finding>::empty(),
{
}

/// The findings of a parsed node include those of each of its children, in order.
pub proof fn law_children_are_linted(t: SqlTree, i: int)
    requires
        !t.is_error,
        0 <= i < t.children.len(),
    ensures
        lint_tree(t) == node_findings(t) + lint_forest(t.children, i) + lint_tree(t.children[i])
            + lint_forest(t.children.subrange(i + 1, t.children.len() as int), t.children.len() - i - 1),
    decreases t.children.len() - i,
{
    lemma_forest_split(t.children, i);
}

/// The findings of a list of trees are those of its first `i + 1` trees and then
/// those of the rest.
proof fn lemma_forest_split(ts: Seq<SqlTree>, i: int)
    requires
        0 <= i < ts.len(),
    ensures
        lint_forest(ts, ts.len() as int) == lint_forest(ts, i) + lint_tree(ts[i]) + lint_forest(
            ts.subrange(i + 1, ts.len() as int),
            ts.len() - i - 1,
        ),
    decreases ts.len() - i,
{
    let rest = ts.subrange(i + 1, ts.len() as int);
    assert forall|n: int| 0 <= n <= rest.len() implies lint_forest(ts, i + 1 + n) == lint_forest(ts, i)
        + lint_tree(ts[i]) + lint_forest(rest, n) by {
        lemma_forest_prefix(ts, i, n);
    }
}

proof fn lemma_forest_prefix(ts: Seq<SqlTree>, i: int, n: int)
    requires
        0 <= i < ts.len(),
        0 <= n <= ts.len() - i - 1,
    ensures
        lint_forest(ts, i + 1 + n) == lint_forest(ts, i) + lint_tree(ts[i]) + lint_forest(
            ts.subrange(i + 1, ts.len() as int),
            n,
        ),
    decreases n,
{
    let rest = ts.subrange(i + 1, ts.len() as int);
    if n == 0 {
        assert(lint_forest(rest, 0) =~= seq![]);
        assert(lint_forest(ts, i + 1) == lint_forest(ts, i) + lint_tree(ts[i]));
        assert(lint_forest(ts, i) + lint_tree(ts[i]) + seq![] =~= lint_forest(ts, i) + lint_tree(
            ts[i],
        ));
    } else {
        lemma_forest_prefix(ts, i, n - 1);
        assert(rest[n - 1] == ts[i + n]);
        assert(lint_forest(ts, i + 1 + n) == lint_forest(ts, i + n) + lint_tree(ts[i + n]));
        assert(lint_forest(rest, n) == lint_forest(rest, n - 1) + lint_tree(rest[n - 1]));
        assert(lint_forest(ts, i) + lint_tree(ts[i]) + lint_forest(rest, n - 1) + lint_tree(
            rest[n - 1],
        ) =~= lint_forest(ts, i) + lint_tree(ts[i]) + (lint_forest(rest, n - 1) + lint_tree(
            rest[n - 1],
        )));
    }
}

proof fn lemma_select_expression_kind()
    ensures
        "select_expression"@ != "update"@,
        "select_expression"@ != "statement"@,
        "select_expression"@ != "all_fields"@,
        "select_expression"@ != "from"@,
        "select_expression"@ != "relation"@,
        "select_expression"@ != "binary_expression"@,
{
    reveal_strlit("select_expression");
    reveal_strlit("update");
    reveal_strlit("statement");
    reveal_strlit("all_fields");
    reveal_strlit("from");
    reveal_strlit("relation");
    reveal_strlit("binary_expression");
    assert(("select_expression"@).len() == 17 && ("statement"@).len() == 9 && ("update"@).len() == 6
        && ("all_fields"@).len() == 10 && ("from"@).len() == 4 && ("relation"@).len() == 8);
    assert(("select_expression"@)[0] != ("binary_expression"@)[0]);
}

/// A select list that begins with a clause keyword and a space, in any ASCII
/// case (`select from users`, `SELECT From users`, ...), is reported as a
/// missing column list: one error at its start.
pub proof fn law_missing_columns_in_any_case(t: SqlTree)
    requires
        t.kind == "select_expression"@,
        starts_with_clause_keyword_any_case(trim(t.text)),
    ensures
        node_findings(t) == seq![
            Finding {
                line: t.start_row as u32,
                col: t.start_column as u32,
                message: "Missing column list in SELECT"@,
                is_error: true,
            },
        ],
{
    lemma_select_expression_kind();
}

proof fn lemma_ignore_case_prefix(s1: Seq<char>, s2: Seq<char>, kw: Seq<char>)
    requires
        eq_ignore_ascii_case(s1, s2),
        matches_ignore_case_at(s1, 0, kw),
    ensures
        matches_ignore_case_at(s2, 0, kw),
{
    let n = kw.len() as int;
    assert forall|i: int| 0 <= i < n implies ascii_lower(s2.subrange(0, n)[i]) == ascii_lower(
        kw[i],
    ) by {
        assert(s1.subrange(0, n)[i] == s1[i]);
        assert(s2.subrange(0, n)[i] == s2[i]);
    }
}

proof fn lemma_any_case_keyword_same(s1: Seq<char>, s2: Seq<char>)
    requires
        eq_ignore_ascii_case(s1, s2),
    ensures
        starts_with_clause_keyword_any_case(s1) == starts_with_clause_keyword_any_case(s2),
{
    assert(eq_ignore_ascii_case(s2, s1));
    let kws = seq!["FROM "@, "WHERE "@, "GROUP "@, "ORDER "@, "HAVING "@, "LIMIT "@];
    assert forall|k: int| 0 <= k < 6 implies matches_ignore_case_at(s1, 0, #[trigger] kws[k])
        == matches_ignore_case_at(s2, 0, kws[k]) by {
        if matches_ignore_case_at(s1, 0, kws[k]) {
            lemma_ignore_case_prefix(s1, s2, kws[k]);
        }
        if matches_ignore_case_at(s2, 0, kws[k]) {
            lemma_ignore_case_prefix(s2, s1, kws[k]);
        }
    }
    assert(kws[0] == "FROM "@ && kws[1] == "WHERE "@ && kws[2] == "GROUP "@ && kws[3] == "ORDER "@
        && kws[4] == "HAVING "@ && kws[5] == "LIMIT "@);
}

/// The findings of a select list do not depend on the ASCII case of its
/// text: two select lists at the same place whose trimmed texts differ only
/// in ASCII case (and so have the same uppercase form) get the same findings.
pub proof fn law_select_list_findings_ignore_ascii_case(t1: SqlTree, t2: SqlTree)
    requires
        t1.kind == "select_expression"@,
        t2.kind == "select_expression"@,
        t1.start_row == t2.start_row,
        t1.start_column == t2.start_column,
        eq_ignore_ascii_case(trim(t1.text), trim(t2.text)),
        uppercase(trim(t1.text)) == uppercase(trim(t2.text)),
    ensures
        node_findings(t1) == node_findings(t2),
{
    lemma_select_expression_kind();
    lemma_any_case_keyword_same(trim(t1.text), trim(t2.text));
}

} // verus!

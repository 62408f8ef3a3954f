//! The SQL formatter.
//!
//! Rules:
//!   1. a query with a single plain column, no join, no subquery and a simple
//!      WHERE stays on one line when it fits in 80 characters;
//!   2. several columns, or a function call as column, put each column on an
//!      indented line under `SELECT`;
//!   3. a WHERE without AND/OR stays inline;
//!   4. a WHERE with AND/OR (outside string literals) puts `WHERE` on its own
//!      line and each condition on an indented line; when nothing else asks
//!      for more lines, `SELECT .. FROM ..` stays on the first line;
//!   5. UPDATE is always multi-line;
//!   6. INSERT with a single row stays on one line when it fits in 80
//!      characters; several rows go on indented lines under VALUES;
//!   7. a subquery gives a multi-line query;
//!   8. JOIN always gives a multi-line query.
//! String literals keep their text. Parts that these rules do not name
//! (DISTINCT, further relations, HAVING, LIMIT, WINDOW, UPDATE .. FROM, INSERT
//! aliases, ON CONFLICT, ...) are kept in their place with their white space
//! collapsed. Comments, statements with a comment inside, WITH and DELETE
//! statements, and compound queries (UNION, ...) keep their text.
use vstd::prelude::*;
use crate::parser::{
    first_child_of_kind, first_of_kind, has_child_of_kind, has_kind, kind_is, lemma_view_children,
    subtree_has_kind, tree_has_kind, SqlNode, SqlTree,
};
use crate::text::{
    ascii_lower, chars_of, contains, contains_str, extend_chars, is_blank, is_literal, is_white,
    is_whitespace, join_vecs, law_squash_keeps_literals, squash_state, trim_end,
    join_with, lowercase, lowercase_chars, matches_ignore_case, matches_ignore_case_at,
    occurs_at, push_str, quote_state, quoted_before, slice_chars, squash, squash_whitespace, starts_with, starts_with_str,
    str_eq, string_of, trim, trim_chars, trim_start, trim_start_chars,
};

verus! {

/// The longest rendering, in characters, that may stay on a single line.
pub const COMPACT_THRESHOLD: usize = 80;

/// The separator ` AND ` that joins conditions.
pub open spec fn and_separator() -> Seq<char> {
    seq![' ', 'A', 'N', 'D', ' ']
}

/// The separator ` OR ` that joins conditions.
pub open spec fn or_separator() -> Seq<char> {
    seq![' ', 'O', 'R', ' ']
}

/// Whether `chars[i..]`, read with `quoted` telling whether a string literal is
/// open at `i`, holds ` AND ` or ` OR ` (in any ASCII case) outside literals.
pub open spec fn has_separator(chars: Seq<char>, i: int, quoted: bool) -> bool
    decreases chars.len() - i,
{
    if i < 0 || i >= chars.len() {
        false
    } else if !quoted && (matches_ignore_case_at(chars, i, and_separator())
        || matches_ignore_case_at(chars, i, or_separator())) {
        true
    } else {
        has_separator(chars, i + 1, quote_state(chars[i], quoted))
    }
}

/// Whether a WHERE condition joins conditions with AND or OR outside its
/// string literals.
pub open spec fn is_complex_condition(condition: Seq<char>) -> bool {
    has_separator(condition, 0, false)
}

/// `chars[i..]` with each ` AND ` / ` OR ` outside string literals (matched in
/// any ASCII case) replaced by a line break, an indent and the uppercase
/// keyword; `quoted` tells whether a literal is open at `i`.
pub open spec fn break_conditions(chars: Seq<char>, i: int, quoted: bool) -> Seq<char>
    decreases chars.len() - i,
{
    if i < 0 || i >= chars.len() {
        seq![]
    } else if !quoted && matches_ignore_case_at(chars, i, and_separator()) {
        "\n    AND "@ + break_conditions(chars, i + and_separator().len(), false)
    } else if !quoted && matches_ignore_case_at(chars, i, or_separator()) {
        "\n    OR "@ + break_conditions(chars, i + or_separator().len(), false)
    } else {
        seq![chars[i]] + break_conditions(chars, i + 1, quote_state(chars[i], quoted))
    }
}

/// The WHERE clause for `condition`: inline when simple, otherwise `WHERE` on
/// its own line and each condition on an indented line.
pub open spec fn where_clause(condition: Seq<char>) -> Seq<char> {
    if !is_complex_condition(condition) {
        "WHERE "@ + condition
    } else {
        "WHERE\n    "@ + trim(break_conditions(condition, 0, false))
    }
}

fn separator_chars(upper_and: bool) -> (r: Vec<char>)
    ensures
        r@ == if upper_and {
            and_separator()
        } else {
            or_separator()
        },
{
    let mut r: Vec<char> = Vec::new();
    r.push(' ');
    if upper_and {
        r.push('A');
        r.push('N');
        r.push('D');
    } else {
        r.push('O');
        r.push('R');
    }
    r.push(' ');
    assert(r@ =~= if upper_and {
        and_separator()
    } else {
        or_separator()
    });
    r
}

fn is_complex_condition_chars(condition: &Vec<char>) -> (r: bool)
    ensures
        r == is_complex_condition(condition@),
{
    let and_sep = separator_chars(true);
    let or_sep = separator_chars(false);
    let mut quoted = false;
    let mut i: usize = 0;
    while i < condition.len()
        invariant
            i <= condition@.len(),
            and_sep@ == and_separator(),
            or_sep@ == or_separator(),
            is_complex_condition(condition@) == has_separator(condition@, i as int, quoted),
        decreases condition@.len() - i,
    {
        if !quoted && (matches_ignore_case(condition, i, &and_sep) || matches_ignore_case(
            condition,
            i,
            &or_sep,
        )) {
            return true;
        }
        quoted = if condition[i] == '\'' {
            !quoted
        } else {
            quoted
        };
        i = i + 1;
    }
    false
}

fn format_where_clause(condition: &Vec<char>) -> (r: Vec<char>)
    ensures
        r@ == where_clause(condition@),
{
    if !is_complex_condition_chars(condition) {
        let mut out: Vec<char> = Vec::new();
        push_str(&mut out, "WHERE ");
        extend_chars(&mut out, condition);
        return out;
    }
    let and_sep = separator_chars(true);
    let or_sep = separator_chars(false);
    let mut out: Vec<char> = Vec::new();
    let mut quoted = false;
    let mut i: usize = 0;
    while i < condition.len()
        invariant
            i <= condition@.len(),
            and_sep@ == and_separator(),
            or_sep@ == or_separator(),
            out@ + break_conditions(condition@, i as int, quoted) == break_conditions(
                condition@,
                0,
                false,
            ),
        decreases condition@.len() - i,
    {
        let ghost before = out@;
        let ghost q = quoted;
        if !quoted && matches_ignore_case(condition, i, &and_sep) {
            push_str(&mut out, "\n    AND ");
            assert(out@ + break_conditions(condition@, i + 5, false) =~= before
                + break_conditions(condition@, i as int, q));
            i = i + 5;
            quoted = false;
        } else if !quoted && matches_ignore_case(condition, i, &or_sep) {
            push_str(&mut out, "\n    OR ");
            assert(out@ + break_conditions(condition@, i + 4, false) =~= before
                + break_conditions(condition@, i as int, q));
            i = i + 4;
            quoted = false;
        } else {
            let c = condition[i];
            out.push(c);
            quoted = if c == '\'' {
                !quoted
            } else {
                quoted
            };
            assert(out@ + break_conditions(condition@, i + 1, quoted) =~= before
                + break_conditions(condition@, i as int, q));
            i = i + 1;
        }
    }
    assert(out@ + break_conditions(condition@, i as int, quoted) =~= out@);
    let body = trim_chars(&out);
    let mut r: Vec<char> = Vec::new();
    push_str(&mut r, "WHERE\n    ");
    extend_chars(&mut r, &body);
    r
}

/// `remaining` with the keyword `kw` removed from its front: after leading
/// white space, `kw` must stand there as a whole word (in any ASCII case,
/// followed by white space or the end); what follows loses its leading white
/// space. Otherwise `remaining` is kept.
pub open spec fn strip_keyword(remaining: Seq<char>, kw: Seq<char>) -> Seq<char> {
    let t = trim_start(remaining);
    if matches_ignore_case_at(t, 0, kw) && (t.len() == kw.len() || is_white(t[kw.len() as int])) {
        trim_start(t.subrange(kw.len() as int, t.len() as int))
    } else {
        remaining
    }
}

/// `remaining` with each keyword of `kws` stripped in turn.
pub open spec fn strip_keywords_from(remaining: Seq<char>, kws: Seq<Seq<char>>) -> Seq<char>
    decreases kws.len(),
{
    if kws.len() == 0 {
        remaining
    } else {
        strip_keywords_from(strip_keyword(remaining, kws[0]), kws.drop_first())
    }
}

/// `s` trimmed, with the leading keywords `kws` removed (without regard to
/// case), and with its white space collapsed outside string literals.
pub open spec fn strip_leading_keywords(s: Seq<char>, kws: Seq<Seq<char>>) -> Seq<char> {
    squash(strip_keywords_from(trim(s), kws))
}

fn strip_keyword_chars(remaining: &Vec<char>, kw: &str) -> (r: Vec<char>)
    ensures
        r@ == strip_keyword(remaining@, kw@),
{
    let t = trim_start_chars(remaining);
    let kwv = chars_of(kw);
    if matches_ignore_case(&t, 0, &kwv) && (t.len() == kwv.len() || is_whitespace(t[kwv.len()])) {
        let rest = slice_chars(&t, kwv.len(), t.len());
        trim_start_chars(&rest)
    } else {
        slice_chars(remaining, 0, remaining.len())
    }
}

fn strip_leading_keywords_chars(s: &Vec<char>, keywords: &[&str]) -> (r: Vec<char>)
    ensures
        r@ == strip_leading_keywords(s@, keywords@.map_values(|k: &str| k@)),
{
    let ghost kws = keywords@.map_values(|k: &str| k@);
    let mut remaining = trim_chars(s);
    let mut k: usize = 0;
    assert(kws.skip(0) =~= kws);
    while k < keywords.len()
        invariant
            k <= keywords@.len(),
            kws == keywords@.map_values(|k: &str| k@),
            strip_keywords_from(trim(s@), kws) == strip_keywords_from(remaining@, kws.skip(k as int)),
        decreases keywords@.len() - k,
    {
        let ghost before = remaining@;
        remaining = strip_keyword_chars(&remaining, keywords[k]);
        assert(kws.skip(k as int).drop_first() =~= kws.skip(k + 1));
        assert(kws.skip(k as int)[0] == keywords@[k as int]@);
        k = k + 1;
    }
    assert(kws.skip(k as int).len() == 0);
    squash_whitespace(&remaining)
}

/// The texts of the nodes in `children` whose kind is `kind` (when `matching`)
/// or is not `kind` (otherwise), in order.
pub open spec fn texts_where_kind(children: Seq<SqlTree>, kind: Seq<char>, matching: bool) -> Seq<
    Seq<char>,
>
    decreases children.len(),
{
    if children.len() == 0 {
        seq![]
    } else {
        let r = texts_where_kind(children.drop_last(), kind, matching);
        if (children.last().kind == kind) == matching {
            r.push(children.last().text)
        } else {
            r
        }
    }
}

/// The condition of a `where` node: the texts of its parts after the WHERE
/// keyword, joined by spaces, with white space collapsed outside string
/// literals.
pub open spec fn where_condition(w: SqlTree) -> Seq<char> {
    squash(join_with(texts_where_kind(w.children, "keyword_where"@, false), seq![' ']))
}

/// The views of a vector of character vectors.
pub open spec fn views(v: Seq<Vec<char>>) -> Seq<Seq<char>> {
    v.map_values(|p: Vec<char>| p@)
}

fn texts_where_kind_of(node: &SqlNode, kind: &str, matching: bool) -> (r: Vec<Vec<char>>)
    ensures
        views(r@) == texts_where_kind(node@.children, kind@, matching),
{
    proof {
        lemma_view_children(node);
    }
    let mut r: Vec<Vec<char>> = Vec::new();
    let mut i: usize = 0;
    while i < node.children.len()
        invariant
            i <= node.children@.len(),
            node@.children.len() == node.children@.len(),
            forall|j: int| 0 <= j < node.children@.len() ==> #[trigger] node@.children[j] == node.children@[j]@,
            views(r@) == texts_where_kind(node@.children.take(i as int), kind@, matching),
        decreases node.children@.len() - i,
    {
        let child = &node.children[i];
        assert(node@.children.take(i + 1).drop_last() =~= node@.children.take(i as int));
        assert(node@.children.take(i + 1).last() == child@);
        if kind_is(child, kind) == matching {
            let ghost before = r@;
            r.push(chars_of(child.text.as_str()));
            assert(views(r@) =~= views(before).push(child@.text));
        }
        i = i + 1;
    }
    assert(node@.children.take(i as int) =~= node@.children);
    r
}

fn where_condition_of(w: &SqlNode) -> (r: Vec<char>)
    ensures
        r@ == where_condition(w@),
{
    let parts = texts_where_kind_of(w, "keyword_where", false);
    let joined = join_vecs(&parts, " ");
    proof {
        reveal_strlit(" ");
    }
    assert(" "@ =~= seq![' ']);
    squash_whitespace(&joined)
}

/// The columns that one child of a `select` node adds to those collected so
/// far: the texts of its terms when it is a select expression, or its own text
/// when no column has been found yet.
pub open spec fn columns_step(cols: Seq<Seq<char>>, child: SqlTree) -> Seq<Seq<char>> {
    if child.kind == "select_expression"@ {
        let found = cols + texts_where_kind(child.children, "term"@, true);
        if found.len() == 0 {
            seq![child.text]
        } else {
            found
        }
    } else {
        cols
    }
}

/// The columns listed by the children of a `select` node.
pub open spec fn select_columns(children: Seq<SqlTree>) -> Seq<Seq<char>>
    decreases children.len(),
{
    if children.len() == 0 {
        seq![]
    } else {
        columns_step(select_columns(children.drop_last()), children.last())
    }
}

/// The columns of a query: those of its `select` node, or `*` when it lists none.
pub open spec fn query_columns(select: Option<SqlTree>) -> Seq<Seq<char>> {
    let cols = match select {
        Some(s) => select_columns(s.children),
        None => seq![],
    };
    if cols.len() == 0 {
        seq![seq!['*']]
    } else {
        cols
    }
}

fn columns_of(select: Option<&SqlNode>) -> (r: Vec<Vec<char>>)
    ensures
        views(r@) == query_columns(
            match select {
                Some(n) => Some(n@),
                None => None,
            },
        ),
{
    let mut cols: Vec<Vec<char>> = Vec::new();
    if let Some(sel) = select {
        proof {
            lemma_view_children(sel);
        }
        let mut i: usize = 0;
        while i < sel.children.len()
            invariant
                i <= sel.children@.len(),
                sel@.children.len() == sel.children@.len(),
                forall|j: int| 0 <= j < sel.children@.len() ==> #[trigger] sel@.children[j] == sel.children@[j]@,
                views(cols@) == select_columns(sel@.children.take(i as int)),
            decreases sel.children@.len() - i,
        {
            let child = &sel.children[i];
            assert(sel@.children.take(i + 1).drop_last() =~= sel@.children.take(i as int));
            assert(sel@.children.take(i + 1).last() == child@);
            if kind_is(child, "select_expression") {
                let terms = texts_where_kind_of(child, "term", true);
                let mut k: usize = 0;
                let ghost start = views(cols@);
                while k < terms.len()
                    invariant
                        k <= terms@.len(),
                        views(cols@) == start + views(terms@).take(k as int),
                    decreases terms@.len() - k,
                {
                    let ghost before = views(cols@);
                    cols.push(slice_chars(&terms[k], 0, terms[k].len()));
                    assert(terms[k as int]@.subrange(0, terms[k as int]@.len() as int) =~= terms[k as int]@);
                    assert(views(cols@) =~= before.push(views(terms@)[k as int]));
                    assert(views(terms@).take(k + 1) =~= views(terms@).take(k as int).push(views(terms@)[k as int]));
                    k = k + 1;
                }
                assert(views(terms@).take(k as int) =~= views(terms@));
                if cols.len() == 0 {
                    cols.push(chars_of(child.text.as_str()));
                    assert(views(cols@) =~= seq![child@.text]);
                }
            }
            i = i + 1;
        }
        assert(sel@.children.take(i as int) =~= sel@.children);
    }
    if cols.len() == 0 {
        let mut star: Vec<char> = Vec::new();
        star.push('*');
        cols.push(star);
        assert(views(cols@) =~= seq![seq!['*']]);
    }
    cols
}

/// `parts` with `x` added at the end when `x` is not empty.
pub open spec fn push_nonempty(parts: Seq<Seq<char>>, x: Seq<char>) -> Seq<Seq<char>> {
    if x.len() > 0 {
        parts.push(x)
    } else {
        parts
    }
}

/// `out` with `x` added when it is not empty.
fn push_if_nonempty(out: &mut Vec<Vec<char>>, x: Vec<char>)
    ensures
        views(final(out)@) == push_nonempty(views(old(out)@), x@),
{
    let ghost before = views(out@);
    if x.len() > 0 {
        out.push(x);
        assert(views(out@) =~= before.push(x@));
    }
}

/// The text of `node` with its white space collapsed outside string literals.
fn squashed_text(node: &SqlNode) -> (r: Vec<char>)
    ensures
        r@ == squash(node@.text),
{
    let t = chars_of(node.text.as_str());
    squash_whitespace(&t)
}

/// A copy of `v`.
fn copy_chars(v: &Vec<char>) -> (r: Vec<char>)
    ensures
        r@ == v@,
{
    let r = slice_chars(v, 0, v.len());
    assert(v@.subrange(0, v@.len() as int) =~= v@);
    r
}

/// The parts of a `from` node that the formatter lays out: its relations, whether
/// it joins, its WHERE condition, and the clauses after the FROM line in the
/// order they come (joins, WHERE, GROUP BY, ORDER BY, and any other clause,
/// such as LIMIT or WINDOW, with its white space collapsed).
pub struct FromParts {
    pub tables: Seq<Seq<char>>,
    pub has_join: bool,
    pub where_cond: Option<Seq<char>>,
    pub tail: Seq<Seq<char>>,
}

pub open spec fn no_from_parts() -> FromParts {
    FromParts { tables: seq![], has_join: false, where_cond: None, tail: seq![] }
}

/// What one child of a `from` node adds.
pub open spec fn from_step(p: FromParts, c: SqlTree) -> FromParts {
    if c.kind == "keyword_from"@ || c.kind == ","@ {
        p
    } else if c.kind == "relation"@ {
        FromParts { tables: p.tables.push(c.text), ..p }
    } else if c.kind == "where"@ {
        let w = where_condition(c);
        FromParts { where_cond: Some(w), tail: p.tail.push(where_clause(w)), ..p }
    } else if c.kind == "order_by"@ {
        let body = strip_leading_keywords(c.text, seq!["ORDER"@, "BY"@]);
        if body.len() > 0 {
            FromParts { tail: p.tail.push("ORDER BY "@ + body), ..p }
        } else {
            p
        }
    } else if c.kind == "group_by"@ {
        let body = strip_leading_keywords(c.text, seq!["GROUP"@, "BY"@]);
        if body.len() > 0 {
            FromParts { tail: p.tail.push("GROUP BY "@ + body), ..p }
        } else {
            p
        }
    } else if contains(lowercase(c.kind), "join"@) {
        FromParts { has_join: true, tail: p.tail.push(c.text), ..p }
    } else {
        FromParts { tail: push_nonempty(p.tail, squash(c.text)), ..p }
    }
}

/// The parts collected from the children of a `from` node.
pub open spec fn from_parts(children: Seq<SqlTree>) -> FromParts
    decreases children.len(),
{
    if children.len() == 0 {
        no_from_parts()
    } else {
        from_step(from_parts(children.drop_last()), children.last())
    }
}

/// The executable form of [`FromParts`].
struct FromPartsExec {
    tables: Vec<Vec<char>>,
    has_join: bool,
    where_cond: Option<Vec<char>>,
    tail: Vec<Vec<char>>,
}

pub open spec fn opt_view(o: Option<Vec<char>>) -> Option<Seq<char>> {
    match o {
        Some(v) => Some(v@),
        None => None,
    }
}

impl FromPartsExec {
    spec fn view(&self) -> FromParts {
        FromParts {
            tables: views(self.tables@),
            has_join: self.has_join,
            where_cond: opt_view(self.where_cond),
            tail: views(self.tail@),
        }
    }
}

fn collect_from_parts(from: Option<&SqlNode>) -> (r: FromPartsExec)
    ensures
        r.view() == match from {
            Some(f) => from_parts(f@.children),
            None => no_from_parts(),
        },
{
    let mut p = FromPartsExec { tables: Vec::new(), has_join: false, where_cond: None, tail: Vec::new() };
    assert(p.view() == no_from_parts()) by {
        assert(views(p.tables@) =~= seq![]);
        assert(views(p.tail@) =~= seq![]);
    }
    if let Some(frm) = from {
        proof {
            lemma_view_children(frm);
        }
        let mut i: usize = 0;
        while i < frm.children.len()
            invariant
                i <= frm.children@.len(),
                frm@.children.len() == frm.children@.len(),
                forall|j: int| 0 <= j < frm.children@.len() ==> #[trigger] frm@.children[j] == frm.children@[j]@,
                p.view() == from_parts(frm@.children.take(i as int)),
            decreases frm.children@.len() - i,
        {
            let child = &frm.children[i];
            assert(frm@.children.take(i + 1).drop_last() =~= frm@.children.take(i as int));
            assert(frm@.children.take(i + 1).last() == child@);
            let ghost before = p.view();
            if kind_is(child, "keyword_from") || kind_is(child, ",") {
            } else if kind_is(child, "relation") {
                p.tables.push(chars_of(child.text.as_str()));
                assert(views(p.tables@) =~= before.tables.push(child@.text));
            } else if kind_is(child, "where") {
                let w = where_condition_of(child);
                let clause = format_where_clause(&w);
                p.where_cond = Some(w);
                p.tail.push(clause);
                assert(views(p.tail@) =~= before.tail.push(where_clause(where_condition(child@))));
            } else if kind_is(child, "order_by") {
                let text = chars_of(child.text.as_str());
                let body = strip_leading_keywords_chars(&text, &["ORDER", "BY"]);
                proof {
                    assert(seq!["ORDER", "BY"].map_values(|k: &str| k@) =~= seq!["ORDER"@, "BY"@]);
                }
                if body.len() > 0 {
                    p.tail.push(prefixed("ORDER BY ", &body));
                    assert(views(p.tail@) =~= before.tail.push("ORDER BY "@ + body@));
                }
            } else if kind_is(child, "group_by") {
                let text = chars_of(child.text.as_str());
                let body = strip_leading_keywords_chars(&text, &["GROUP", "BY"]);
                proof {
                    assert(seq!["GROUP", "BY"].map_values(|k: &str| k@) =~= seq!["GROUP"@, "BY"@]);
                }
                if body.len() > 0 {
                    p.tail.push(prefixed("GROUP BY ", &body));
                    assert(views(p.tail@) =~= before.tail.push("GROUP BY "@ + body@));
                }
            } else {
                let kind = chars_of(child.kind.as_str());
                let lower = lowercase_chars(&kind);
                if contains_str(&lower, "join") {
                    p.has_join = true;
                    p.tail.push(chars_of(child.text.as_str()));
                    assert(views(p.tail@) =~= before.tail.push(child@.text));
                } else {
                    push_if_nonempty(&mut p.tail, squashed_text(child));
                }
            }
            assert(p.view() == from_step(before, child@));
            i = i + 1;
        }
        assert(frm@.children.take(i as int) =~= frm@.children);
    }
    p
}

/// The texts of the children of a `select` node other than the SELECT
/// keyword and the column list (such as DISTINCT), in order.
pub open spec fn select_modifiers(children: Seq<SqlTree>) -> Seq<Seq<char>>
    decreases children.len(),
{
    if children.len() == 0 {
        seq![]
    } else {
        let r = select_modifiers(children.drop_last());
        let c = children.last();
        if c.kind == "keyword_select"@ || c.kind == "select_expression"@ {
            r
        } else {
            r.push(c.text)
        }
    }
}

/// The modifiers of a query's `select` node, if it has one.
pub open spec fn query_modifiers(select: Option<SqlTree>) -> Seq<Seq<char>> {
    match select {
        Some(s) => select_modifiers(s.children),
        None => seq![],
    }
}

fn modifiers_of(select: Option<&SqlNode>) -> (r: Vec<Vec<char>>)
    ensures
        views(r@) == query_modifiers(
            match select {
                Some(n) => Some(n@),
                None => None,
            },
        ),
{
    let mut mods: Vec<Vec<char>> = Vec::new();
    assert(views(mods@) =~= seq![]);
    if let Some(sel) = select {
        proof {
            lemma_view_children(sel);
        }
        let mut i: usize = 0;
        while i < sel.children.len()
            invariant
                i <= sel.children@.len(),
                sel@.children.len() == sel.children@.len(),
                forall|j: int| 0 <= j < sel.children@.len() ==> #[trigger] sel@.children[j] == sel.children@[j]@,
                views(mods@) == select_modifiers(sel@.children.take(i as int)),
            decreases sel.children@.len() - i,
        {
            let child = &sel.children[i];
            assert(sel@.children.take(i + 1).drop_last() =~= sel@.children.take(i as int));
            assert(sel@.children.take(i + 1).last() == child@);
            if !(kind_is(child, "keyword_select") || kind_is(child, "select_expression")) {
                let ghost before = views(mods@);
                mods.push(chars_of(child.text.as_str()));
                assert(views(mods@) =~= before.push(child@.text));
            }
            i = i + 1;
        }
        assert(sel@.children.take(i as int) =~= sel@.children);
    }
    mods
}

/// Each of `words` preceded by a space.
pub open spec fn spaced(words: Seq<Seq<char>>) -> Seq<char>
    decreases words.len(),
{
    if words.len() == 0 {
        seq![]
    } else {
        spaced(words.drop_last()) + " "@ + words.last()
    }
}

fn push_spaced(out: &mut Vec<char>, words: &Vec<Vec<char>>)
    ensures
        final(out)@ == old(out)@ + spaced(views(words@)),
{
    let ghost start = out@;
    let mut i: usize = 0;
    assert(views(words@).take(0) =~= seq![]);
    while i < words.len()
        invariant
            i <= words@.len(),
            out@ == start + spaced(views(words@).take(i as int)),
        decreases words@.len() - i,
    {
        push_str(out, " ");
        extend_chars(out, &words[i]);
        assert(views(words@).take(i + 1).drop_last() =~= views(words@).take(i as int));
        assert(views(words@).take(i + 1).last() == words@[i as int]@);
        assert(out@ =~= start + spaced(views(words@).take(i + 1)));
        i = i + 1;
    }
    assert(views(words@).take(i as int) =~= views(words@));
}

/// The SELECT clause, with its modifiers: one line for a single plain
/// column, otherwise each column on an indented line.
pub open spec fn select_clause(cols: Seq<Seq<char>>, multi: bool, mods: Seq<Seq<char>>) -> Seq<char> {
    if multi {
        "SELECT"@ + spaced(mods) + "\n    "@ + join_with(cols, ",\n    "@)
    } else {
        "SELECT"@ + spaced(mods) + " "@ + join_with(cols, ", "@)
    }
}

/// The clauses of a query, in output order: SELECT, FROM with its relations,
/// then the clauses that follow FROM.
pub open spec fn select_clauses(
    cols: Seq<Seq<char>>,
    multi: bool,
    mods: Seq<Seq<char>>,
    has_from: bool,
    p: FromParts,
) -> Seq<Seq<char>> {
    seq![select_clause(cols, multi, mods)] + (if has_from {
        seq!["FROM "@ + join_with(p.tables, ", "@)]
    } else {
        seq![]
    }) + p.tail
}

/// Several columns, or a first column holding a call.
pub open spec fn is_multi_column(cols: Seq<Seq<char>>) -> bool {
    cols.len() > 1 || contains(cols[0], "("@)
}

/// The clauses of the query with children `ch`, as the formatter lays them out.
pub open spec fn statement_clauses(ch: Seq<SqlTree>) -> Seq<Seq<char>> {
    let select = first_of_kind(ch, "select"@);
    let cols = query_columns(select);
    let from = first_of_kind(ch, "from"@);
    let p = match from {
        Some(f) => from_parts(f.children),
        None => no_from_parts(),
    };
    select_clauses(cols, is_multi_column(cols), query_modifiers(select), from is Some, p)
}

/// Whether `t` holds a comment (`--` or `/* */`) anywhere.
pub open spec fn holds_comment(t: SqlTree) -> bool {
    tree_has_kind(t, "comment"@) || tree_has_kind(t, "marginalia"@)
}

/// The formatted text of a query statement `stmt`. A statement that holds a
/// comment keeps its text as written. Otherwise: one line when it has a
/// single plain column, no join, no subquery, a simple WHERE, and fits in 80
/// characters; with a single plain column, no join and no subquery but a
/// complex WHERE, `SELECT .. FROM ..` on one line and the clauses after it on
/// lines of their own; otherwise every clause on a line of its own.
pub open spec fn select_statement(stmt: SqlTree) -> Seq<char> {
    let ch = stmt.children;
    let cols = query_columns(first_of_kind(ch, "select"@));
    let p = match first_of_kind(ch, "from"@) {
        Some(f) => from_parts(f.children),
        None => no_from_parts(),
    };
    let multi = is_multi_column(cols);
    let complex = match p.where_cond {
        Some(w) => is_complex_condition(w),
        None => false,
    };
    let nested = tree_has_kind(stmt, "subquery"@);
    let clauses = statement_clauses(ch);
    let one_line = join_with(clauses, " "@);
    if holds_comment(stmt) {
        stmt.text
    } else if !multi && !p.has_join && !nested && !complex && one_line.len() <= COMPACT_THRESHOLD {
        one_line
    } else if !multi && !p.has_join && !nested && complex && clauses.len() >= 2 {
        join_with(seq![clauses[0] + " "@ + clauses[1]] + clauses.skip(2), "\n"@)
    } else {
        join_with(clauses, "\n"@)
    }
}

fn prefixed(prefix: &str, body: &Vec<char>) -> (r: Vec<char>)
    ensures
        r@ == prefix@ + body@,
{
    let mut r: Vec<char> = Vec::new();
    push_str(&mut r, prefix);
    extend_chars(&mut r, body);
    r
}

/// Adds a copy of each of `parts` to `out`.
fn extend_parts(out: &mut Vec<Vec<char>>, parts: &Vec<Vec<char>>)
    ensures
        views(final(out)@) == views(old(out)@) + views(parts@),
{
    let ghost start = views(out@);
    let mut k: usize = 0;
    while k < parts.len()
        invariant
            k <= parts@.len(),
            views(out@) == start + views(parts@).take(k as int),
        decreases parts@.len() - k,
    {
        let ghost before = views(out@);
        out.push(copy_chars(&parts[k]));
        assert(views(out@) =~= before.push(views(parts@)[k as int]));
        assert(views(parts@).take(k + 1) =~= views(parts@).take(k as int).push(views(parts@)[k as int]));
        k = k + 1;
    }
    assert(views(parts@).take(k as int) =~= views(parts@));
}

fn format_select_stmt(stmt: &SqlNode) -> (r: Vec<char>)
    ensures
        r@ == select_statement(stmt@),
{
    if subtree_has_kind(stmt, "comment") || subtree_has_kind(stmt, "marginalia") {
        return chars_of(stmt.text.as_str());
    }
    let select_node = first_child_of_kind(stmt, "select");
    let from_node = first_child_of_kind(stmt, "from");
    let columns = columns_of(select_node);
    let mods = modifiers_of(select_node);
    let p = collect_from_parts(from_node);
    let ghost cols = views(columns@);
    assert(cols.len() == columns@.len());
    assert(cols.len() > 0);
    assert(cols[0] == columns@[0]@);
    let multi_column = columns.len() > 1 || contains_str(&columns[0], "(");
    let complex_where = match &p.where_cond {
        Some(w) => is_complex_condition_chars(w),
        None => false,
    };
    let mut first_clause: Vec<char> = Vec::new();
    push_str(&mut first_clause, "SELECT");
    push_spaced(&mut first_clause, &mods);
    if multi_column {
        push_str(&mut first_clause, "\n    ");
        let body = join_vecs(&columns, ",\n    ");
        extend_chars(&mut first_clause, &body);
    } else {
        push_str(&mut first_clause, " ");
        let body = join_vecs(&columns, ", ");
        extend_chars(&mut first_clause, &body);
    }
    let mut clauses: Vec<Vec<char>> = Vec::new();
    clauses.push(first_clause);
    let ghost base = views(clauses@);
    if from_node.is_some() {
        let tables = join_vecs(&p.tables, ", ");
        clauses.push(prefixed("FROM ", &tables));
    }
    let ghost with_from = views(clauses@);
    extend_parts(&mut clauses, &p.tail);
    proof {
        let sp = p.view();
        let sel = first_of_kind(stmt@.children, "select"@);
        assert(base =~= seq![select_clause(cols, multi_column, query_modifiers(sel))]);
        assert(with_from =~= base + (if first_of_kind(stmt@.children, "from"@) is Some {
            seq!["FROM "@ + join_with(sp.tables, ", "@)]
        } else {
            seq![]
        }));
        assert(views(clauses@) =~= statement_clauses(stmt@.children));
    }
    let nested = subtree_has_kind(stmt, "subquery");
    let one_line = join_vecs(&clauses, " ");
    if !multi_column && !p.has_join && !nested && !complex_where && one_line.len()
        <= COMPACT_THRESHOLD {
        one_line
    } else if !multi_column && !p.has_join && !nested && complex_where && clauses.len() >= 2 {
        let ghost cv = views(clauses@);
        let mut head = copy_chars(&clauses[0]);
        push_str(&mut head, " ");
        extend_chars(&mut head, &clauses[1]);
        proof {
            reveal_strlit(" ");
            assert(head@ =~= cv[0] + " "@ + cv[1]);
        }
        let mut lines: Vec<Vec<char>> = Vec::new();
        lines.push(head);
        let ghost hv = head@;
        let mut k: usize = 2;
        assert(views(lines@) =~= seq![hv] + cv.subrange(2, 2));
        while k < clauses.len()
            invariant
                2 <= k <= clauses@.len(),
                cv == views(clauses@),
                views(lines@) == seq![hv] + cv.subrange(2, k as int),
            decreases clauses@.len() - k,
        {
            let ghost before = views(lines@);
            lines.push(copy_chars(&clauses[k]));
            assert(views(lines@) =~= before.push(cv[k as int]));
            assert(cv.subrange(2, k + 1) =~= cv.subrange(2, k as int).push(cv[k as int]));
            k = k + 1;
        }
        assert(cv.subrange(2, k as int) =~= cv.skip(2));
        join_vecs(&lines, "\n")
    } else {
        join_vecs(&clauses, "\n")
    }
}

/// Each of `lines` preceded by a line break.
pub open spec fn lines_after(lines: Seq<Seq<char>>) -> Seq<char>
    decreases lines.len(),
{
    if lines.len() == 0 {
        seq![]
    } else {
        lines_after(lines.drop_last()) + "\n"@ + lines.last()
    }
}

fn push_lines(out: &mut Vec<char>, lines: &Vec<Vec<char>>)
    ensures
        final(out)@ == old(out)@ + lines_after(views(lines@)),
{
    let ghost start = out@;
    let mut i: usize = 0;
    assert(views(lines@).take(0) =~= seq![]);
    while i < lines.len()
        invariant
            i <= lines@.len(),
            out@ == start + lines_after(views(lines@).take(i as int)),
        decreases lines@.len() - i,
    {
        push_str(out, "\n");
        extend_chars(out, &lines[i]);
        assert(views(lines@).take(i + 1).drop_last() =~= views(lines@).take(i as int));
        assert(views(lines@).take(i + 1).last() == lines@[i as int]@);
        assert(out@ =~= start + lines_after(views(lines@).take(i + 1)));
        i = i + 1;
    }
    assert(views(lines@).take(i as int) =~= views(lines@));
}

/// The parts of an `update` node that the formatter lays out: the table, the
/// assignments, and the lines after SET in the order they come (the WHERE
/// clause, and any other part, such as FROM, with its white space collapsed).
pub struct UpdateParts {
    pub table: Seq<char>,
    pub assignments: Seq<Seq<char>>,
    pub tail: Seq<Seq<char>>,
}

/// What one child of an `update` node adds.
pub open spec fn update_step(p: UpdateParts, c: SqlTree) -> UpdateParts {
    if c.kind == "keyword_update"@ || c.kind == "keyword_set"@ || c.kind == ","@ {
        p
    } else if c.kind == "relation"@ {
        UpdateParts { table: c.text, ..p }
    } else if c.kind == "assignment"@ {
        UpdateParts { assignments: p.assignments.push(c.text), ..p }
    } else if c.kind == "where"@ {
        UpdateParts { tail: p.tail.push(where_clause(where_condition(c))), ..p }
    } else {
        UpdateParts { tail: push_nonempty(p.tail, squash(c.text)), ..p }
    }
}

/// The parts collected from the children of an `update` node.
pub open spec fn update_parts(children: Seq<SqlTree>) -> UpdateParts
    decreases children.len(),
{
    if children.len() == 0 {
        UpdateParts { table: seq![], assignments: seq![], tail: seq![] }
    } else {
        update_step(update_parts(children.drop_last()), children.last())
    }
}

/// The formatted text of an `update` node: the table, the assignments and
/// what follows them each on lines of their own.
pub open spec fn update_statement(node: SqlTree) -> Seq<char> {
    let p = update_parts(node.children);
    "UPDATE "@ + p.table + "\nSET "@ + join_with(p.assignments, ", "@) + lines_after(p.tail)
}

fn format_update_stmt(node: &SqlNode) -> (r: Vec<char>)
    ensures
        r@ == update_statement(node@),
{
    proof {
        lemma_view_children(node);
    }
    let mut table: Vec<char> = Vec::new();
    let mut assignments: Vec<Vec<char>> = Vec::new();
    let mut tail: Vec<Vec<char>> = Vec::new();
    let mut i: usize = 0;
    assert(views(assignments@) =~= seq![]);
    assert(views(tail@) =~= seq![]);
    while i < node.children.len()
        invariant
            i <= node.children@.len(),
            node@.children.len() == node.children@.len(),
            forall|j: int| 0 <= j < node.children@.len() ==> #[trigger] node@.children[j] == node.children@[j]@,
            update_parts(node@.children.take(i as int)) == (UpdateParts {
                table: table@,
                assignments: views(assignments@),
                tail: views(tail@),
            }),
        decreases node.children@.len() - i,
    {
        let child = &node.children[i];
        assert(node@.children.take(i + 1).drop_last() =~= node@.children.take(i as int));
        assert(node@.children.take(i + 1).last() == child@);
        let ghost before = views(assignments@);
        let ghost before_tail = views(tail@);
        if kind_is(child, "keyword_update") || kind_is(child, "keyword_set") || kind_is(child, ",") {
        } else if kind_is(child, "relation") {
            table = chars_of(child.text.as_str());
        } else if kind_is(child, "assignment") {
            assignments.push(chars_of(child.text.as_str()));
            assert(views(assignments@) =~= before.push(child@.text));
        } else if kind_is(child, "where") {
            let w = where_condition_of(child);
            tail.push(format_where_clause(&w));
            assert(views(tail@) =~= before_tail.push(where_clause(where_condition(child@))));
        } else {
            push_if_nonempty(&mut tail, squashed_text(child));
        }
        i = i + 1;
    }
    assert(node@.children.take(i as int) =~= node@.children);
    let joined = join_vecs(&assignments, ", ");
    let mut out = prefixed("UPDATE ", &table);
    push_str(&mut out, "\nSET ");
    extend_chars(&mut out, &joined);
    push_lines(&mut out, &tail);
    assert(out@ =~= update_statement(node@));
    out
}

/// The parts of an `insert` node that the formatter lays out: the head
/// (`INSERT INTO` and each part before VALUES, such as the table, an alias
/// and the column list), whether VALUES came, the rows after it, and the
/// parts after the rows (such as ON CONFLICT) with their white space
/// collapsed.
pub struct InsertParts {
    pub head: Seq<char>,
    pub in_values: bool,
    pub rows: Seq<Seq<char>>,
    pub tail: Seq<Seq<char>>,
}

/// What one child of an `insert` node adds.
pub open spec fn insert_step(p: InsertParts, c: SqlTree) -> InsertParts {
    if c.kind == "keyword_insert"@ || c.kind == "keyword_into"@ {
        p
    } else if c.kind == "keyword_values"@ {
        InsertParts { in_values: true, ..p }
    } else if !p.in_values {
        InsertParts { head: p.head + " "@ + c.text, ..p }
    } else if c.kind == "list"@ {
        InsertParts { rows: p.rows.push(c.text), ..p }
    } else if c.kind == ","@ {
        p
    } else {
        InsertParts { tail: push_nonempty(p.tail, squash(c.text)), ..p }
    }
}

/// The parts collected from the children of an `insert` node.
pub open spec fn insert_parts(children: Seq<SqlTree>) -> InsertParts
    decreases children.len(),
{
    if children.len() == 0 {
        InsertParts { head: "INSERT INTO"@, in_values: false, rows: seq![], tail: seq![] }
    } else {
        insert_step(insert_parts(children.drop_last()), children.last())
    }
}

/// The formatted text of an `insert` node. Without VALUES (as in
/// `INSERT .. SELECT`), its head. With a single row of values, one line when
/// it fits in 80 characters, otherwise VALUES on a second line; with several
/// rows, each row on an indented line under VALUES. What follows the rows
/// stays on the single line, or goes on a last line of its own.
pub open spec fn insert_statement(node: SqlTree) -> Seq<char> {
    let p = insert_parts(node.children);
    let rest = join_with(p.tail, " "@);
    let one_line = p.head + " VALUES "@ + join_with(p.rows, ", "@) + if p.tail.len() == 0 {
        seq![]
    } else {
        " "@ + rest
    };
    let last_line = if p.tail.len() == 0 {
        seq![]
    } else {
        "\n"@ + rest
    };
    if !p.in_values {
        p.head
    } else if p.rows.len() <= 1 && one_line.len() <= COMPACT_THRESHOLD {
        one_line
    } else if p.rows.len() <= 1 {
        p.head + "\nVALUES "@ + join_with(p.rows, ", "@) + last_line
    } else {
        p.head + "\nVALUES\n    "@ + join_with(p.rows, ",\n    "@) + last_line
    }
}

fn format_insert_stmt(node: &SqlNode) -> (r: Vec<char>)
    ensures
        r@ == insert_statement(node@),
{
    proof {
        lemma_view_children(node);
    }
    let mut head: Vec<char> = Vec::new();
    push_str(&mut head, "INSERT INTO");
    let mut in_values = false;
    let mut rows: Vec<Vec<char>> = Vec::new();
    let mut tail: Vec<Vec<char>> = Vec::new();
    let mut i: usize = 0;
    assert(views(rows@) =~= seq![]);
    assert(views(tail@) =~= seq![]);
    while i < node.children.len()
        invariant
            i <= node.children@.len(),
            node@.children.len() == node.children@.len(),
            forall|j: int| 0 <= j < node.children@.len() ==> #[trigger] node@.children[j] == node.children@[j]@,
            insert_parts(node@.children.take(i as int)) == (InsertParts {
                head: head@,
                in_values,
                rows: views(rows@),
                tail: views(tail@),
            }),
        decreases node.children@.len() - i,
    {
        let child = &node.children[i];
        assert(node@.children.take(i + 1).drop_last() =~= node@.children.take(i as int));
        assert(node@.children.take(i + 1).last() == child@);
        let ghost before = views(rows@);
        if kind_is(child, "keyword_insert") || kind_is(child, "keyword_into") {
        } else if kind_is(child, "keyword_values") {
            in_values = true;
        } else if !in_values {
            push_str(&mut head, " ");
            push_str(&mut head, child.text.as_str());
        } else if kind_is(child, "list") {
            rows.push(chars_of(child.text.as_str()));
            assert(views(rows@) =~= before.push(child@.text));
        } else if kind_is(child, ",") {
        } else {
            push_if_nonempty(&mut tail, squashed_text(child));
        }
        i = i + 1;
    }
    assert(node@.children.take(i as int) =~= node@.children);
    let ghost p = insert_parts(node@.children);
    if !in_values {
        return head;
    }
    let rest = join_vecs(&tail, " ");
    let row = join_vecs(&rows, ", ");
    if rows.len() <= 1 {
        let mut one_line = copy_chars(&head);
        push_str(&mut one_line, " VALUES ");
        extend_chars(&mut one_line, &row);
        if tail.len() > 0 {
            push_str(&mut one_line, " ");
            extend_chars(&mut one_line, &rest);
        }
        if one_line.len() <= COMPACT_THRESHOLD {
            assert(one_line@ =~= insert_statement(node@));
            return one_line;
        }
        let mut out = head;
        push_str(&mut out, "\nVALUES ");
        extend_chars(&mut out, &row);
        if tail.len() > 0 {
            push_str(&mut out, "\n");
            extend_chars(&mut out, &rest);
        }
        assert(out@ =~= insert_statement(node@));
        return out;
    }
    let rows_text = join_vecs(&rows, ",\n    ");
    let mut out = head;
    push_str(&mut out, "\nVALUES\n    ");
    extend_chars(&mut out, &rows_text);
    if tail.len() > 0 {
        push_str(&mut out, "\n");
        extend_chars(&mut out, &rest);
    }
    assert(out@ =~= insert_statement(node@));
    out
}

/// The texts of `nodes`, each on a line of its own after what precedes them.
pub open spec fn trailing_lines(nodes: Seq<SqlTree>) -> Seq<char>
    decreases nodes.len(),
{
    if nodes.len() == 0 {
        seq![]
    } else {
        trailing_lines(nodes.drop_last()) + "\n"@ + nodes.last().text
    }
}

/// Whether a query statement with children `ch` is made of at most one
/// `select` and one `from` node, which the formatter lays out (a compound
/// query, such as a UNION, keeps its text).
pub open spec fn query_shape(ch: Seq<SqlTree>) -> bool {
    &&& ch.len() <= 2
    &&& forall|i: int| 0 <= i < ch.len() ==> #[trigger] ch[i].kind == "select"@ || ch[i].kind == "from"@
    &&& (ch.len() == 2 ==> ch[0].kind != ch[1].kind)
}

/// The formatting of a statement decided by its children from index `i` on:
/// the first child that is a query part, an `update` or an `insert` decides;
/// an `update` or `insert` keeps the siblings that follow it (such as
/// RETURNING) on lines of their own; with none of them, or with query parts
/// other than one `select` and one `from`, the text is kept.
pub open spec fn dispatch_statement(stmt: SqlTree, i: int) -> Seq<char>
    decreases stmt.children.len() - i,
{
    let ch = stmt.children;
    if i < 0 || i >= ch.len() {
        stmt.text
    } else if ch[i].kind == "select"@ || ch[i].kind == "from"@ {
        if query_shape(ch) {
            select_statement(stmt)
        } else {
            stmt.text
        }
    } else if ch[i].kind == "update"@ {
        update_statement(ch[i]) + trailing_lines(ch.subrange(i + 1, ch.len() as int))
    } else if ch[i].kind == "insert"@ {
        insert_statement(ch[i]) + trailing_lines(ch.subrange(i + 1, ch.len() as int))
    } else {
        dispatch_statement(stmt, i + 1)
    }
}

/// The formatted text of a `statement` node. A WITH (CTE) or DELETE
/// statement, and one that holds a comment anywhere, keeps its text.
#[verifier::opaque]
pub open spec fn statement_output(stmt: SqlTree) -> Seq<char> {
    if has_kind(stmt.children, "cte"@) || has_kind(stmt.children, "delete"@) || tree_has_kind(
        stmt,
        "comment"@,
    ) || tree_has_kind(stmt, "marginalia"@) {
        stmt.text
    } else {
        dispatch_statement(stmt, 0)
    }
}

fn query_shape_of(stmt: &SqlNode) -> (r: bool)
    ensures
        r == query_shape(stmt@.children),
{
    proof {
        lemma_view_children(stmt);
    }
    let n = stmt.children.len();
    if n > 2 {
        return false;
    }
    let mut i: usize = 0;
    while i < n
        invariant
            n == stmt.children@.len(),
            i <= n,
            stmt@.children.len() == n,
            forall|j: int| 0 <= j < n ==> #[trigger] stmt@.children[j] == stmt.children@[j]@,
            forall|j: int| 0 <= j < i ==> #[trigger] stmt@.children[j].kind == "select"@
                || stmt@.children[j].kind == "from"@,
        decreases n - i,
    {
        let c = &stmt.children[i];
        assert(stmt@.children[i as int] == c@);
        if !(kind_is(c, "select") || kind_is(c, "from")) {
            return false;
        }
        i = i + 1;
    }
    if n == 2 && str_eq(stmt.children[0].kind.as_str(), stmt.children[1].kind.as_str()) {
        assert(stmt@.children[0] == stmt.children@[0]@);
        assert(stmt@.children[1] == stmt.children@[1]@);
        return false;
    }
    if n == 2 {
        assert(stmt@.children[0] == stmt.children@[0]@);
        assert(stmt@.children[1] == stmt.children@[1]@);
    }
    true
}

fn trailing_lines_of(node: &SqlNode, from: usize) -> (r: Vec<char>)
    requires
        from <= node@.children.len(),
    ensures
        r@ == trailing_lines(node@.children.subrange(from as int, node@.children.len() as int)),
{
    proof {
        lemma_view_children(node);
    }
    let mut out: Vec<char> = Vec::new();
    let mut i = from;
    assert(node@.children.subrange(from as int, from as int).len() == 0);
    while i < node.children.len()
        invariant
            from <= i <= node.children@.len(),
            node@.children.len() == node.children@.len(),
            forall|j: int| 0 <= j < node.children@.len() ==> #[trigger] node@.children[j] == node.children@[j]@,
            out@ == trailing_lines(node@.children.subrange(from as int, i as int)),
        decreases node.children@.len() - i,
    {
        assert(node@.children.subrange(from as int, i + 1).drop_last() =~= node@.children.subrange(
            from as int,
            i as int,
        ));
        assert(node@.children.subrange(from as int, i + 1).last() == node.children@[i as int]@);
        push_str(&mut out, "\n");
        push_str(&mut out, node.children[i].text.as_str());
        i = i + 1;
    }
    out
}

fn format_statement(node: &SqlNode) -> (r: Vec<char>)
    ensures
        r@ == statement_output(node@),
{
    reveal(statement_output);
    if has_child_of_kind(node, "cte") || has_child_of_kind(node, "delete") || subtree_has_kind(
        node,
        "comment",
    ) || subtree_has_kind(node, "marginalia") {
        return chars_of(node.text.as_str());
    }
    proof {
        lemma_view_children(node);
    }
    let mut i: usize = 0;
    while i < node.children.len()
        invariant
            i <= node.children@.len(),
            node@.children.len() == node.children@.len(),
            forall|j: int| 0 <= j < node.children@.len() ==> #[trigger] node@.children[j] == node.children@[j]@,
            statement_output(node@) == dispatch_statement(node@, 0),
            dispatch_statement(node@, 0) == dispatch_statement(node@, i as int),
        decreases node.children@.len() - i,
    {
        let child = &node.children[i];
        assert(node@.children[i as int] == child@);
        if kind_is(child, "select") || kind_is(child, "from") {
            if query_shape_of(node) {
                return format_select_stmt(node);
            }
            return chars_of(node.text.as_str());
        } else if kind_is(child, "update") {
            let mut out = format_update_stmt(child);
            let rest = trailing_lines_of(node, i + 1);
            extend_chars(&mut out, &rest);
            return out;
        } else if kind_is(child, "insert") {
            let mut out = format_insert_stmt(child);
            let rest = trailing_lines_of(node, i + 1);
            extend_chars(&mut out, &rest);
            return out;
        }
        i = i + 1;
    }
    chars_of(node.text.as_str())
}

/// One entry of the formatted document: a statement or comment, whether a
/// semicolon follows it, and a comment that stays on its last line.
pub struct Item {
    pub content: Seq<char>,
    pub has_semi: bool,
    pub comment: Option<Seq<char>>,
}

/// The state of the pass over the children of the document: the entries so
/// far, the row where the last statement ended (while no comment followed),
/// and whether the last child was a statement that gave an entry.
pub struct ProgramState {
    pub items: Seq<Item>,
    pub last_row: Option<usize>,
    pub continues: bool,
}

/// Whether a semicolon directly follows child `i`.
pub open spec fn semicolon_follows(ch: Seq<SqlTree>, i: int) -> bool {
    i + 1 < ch.len() && ch[i + 1].kind == ";"@
}

/// What child `i` of the document does to the state:
///  * a statement adds its formatting, unless that is blank;
///  * a comment on the row where the last statement ended becomes that
///    statement's trailing comment, any other comment an entry of its own;
///  * text that the grammar could not parse is kept: it continues the
///    statement that it follows, or else stands as an entry of its own;
///  * anything else (a semicolon) adds nothing.
pub open spec fn program_step(st: ProgramState, ch: Seq<SqlTree>, i: int) -> ProgramState {
    let c = ch[i];
    if c.kind == "statement"@ {
        let r = statement_output(c);
        if trim(r).len() > 0 {
            ProgramState {
                items: st.items.push(
                    Item { content: r, has_semi: semicolon_follows(ch, i), comment: None },
                ),
                last_row: Some(c.end_row),
                continues: true,
            }
        } else {
            ProgramState { items: st.items, last_row: Some(c.end_row), continues: false }
        }
    } else if c.kind == "comment"@ {
        if st.last_row == Some(c.start_row) && st.items.len() > 0 {
            let last = st.items.last();
            ProgramState {
                items: st.items.update(
                    st.items.len() - 1,
                    Item { comment: Some(c.text), ..last },
                ),
                last_row: None,
                continues: false,
            }
        } else {
            ProgramState {
                items: st.items.push(Item { content: c.text, has_semi: false, comment: None }),
                last_row: None,
                continues: false,
            }
        }
    } else if c.is_error {
        if st.continues && st.items.len() > 0 {
            let last = st.items.last();
            ProgramState {
                items: st.items.update(
                    st.items.len() - 1,
                    Item {
                        content: last.content + " "@ + c.text,
                        has_semi: semicolon_follows(ch, i),
                        comment: last.comment,
                    },
                ),
                last_row: Some(c.end_row),
                continues: true,
            }
        } else if trim(c.text).len() > 0 {
            ProgramState {
                items: st.items.push(
                    Item { content: c.text, has_semi: semicolon_follows(ch, i), comment: None },
                ),
                last_row: Some(c.end_row),
                continues: true,
            }
        } else {
            ProgramState { continues: false, ..st }
        }
    } else {
        ProgramState { continues: false, ..st }
    }
}

/// The state after the first `n` children of the document.
pub open spec fn program_state(ch: Seq<SqlTree>, n: int) -> ProgramState
    decreases n,
{
    if n <= 0 {
        ProgramState { items: seq![], last_row: None, continues: false }
    } else {
        program_step(program_state(ch, n - 1), ch, n - 1)
    }
}

/// The text of one entry: its content, its semicolon, and its trailing comment
/// after a space.
pub open spec fn item_text(it: Item) -> Seq<char> {
    it.content + (if it.has_semi {
        ";"@
    } else {
        seq![]
    }) + match it.comment {
        Some(c) => " "@ + c,
        None => seq![],
    }
}

/// What separates entry `idx` from the one before it: nothing for the first,
/// a line break before a comment, a blank line before anything else.
pub open spec fn item_separator(idx: int, it: Item) -> Seq<char> {
    if idx == 0 {
        seq![]
    } else if starts_with(it.content, "--"@) {
        "\n"@
    } else {
        "\n\n"@
    }
}

/// The entries, in order, each after its separator.
pub open spec fn render_items(items: Seq<Item>) -> Seq<char>
    decreases items.len(),
{
    if items.len() == 0 {
        seq![]
    } else {
        render_items(items.drop_last()) + item_separator(items.len() - 1, items.last()) + item_text(
            items.last(),
        )
    }
}

/// The formatted text of a document whose syntax tree is `root`.
pub open spec fn program_output(root: SqlTree) -> Seq<char> {
    render_items(program_state(root.children, root.children.len() as int).items)
}

/// The formatted text of `source`: the formatting of its syntax tree, or
/// `source` itself when the grammar gives no tree.
pub open spec fn formatted(source: Seq<char>) -> Seq<char> {
    match crate::parser::syntax_tree(source) {
        Some(t) => program_output(t),
        None => source,
    }
}

struct ItemExec {
    content: Vec<char>,
    has_semi: bool,
    comment: Option<Vec<char>>,
}

impl ItemExec {
    spec fn view(&self) -> Item {
        Item { content: self.content@, has_semi: self.has_semi, comment: opt_view(self.comment) }
    }
}

spec fn item_views(items: Seq<ItemExec>) -> Seq<Item> {
    items.map_values(|it: ItemExec| it.view())
}

fn semicolon_follows_at(root: &SqlNode, i: usize) -> (r: bool)
    requires
        i < root@.children.len(),
    ensures
        r == semicolon_follows(root@.children, i as int),
{
    proof {
        lemma_view_children(root);
    }
    root.children.len() - i > 1 && kind_is(&root.children[i + 1], ";")
}

fn render_item_list(items: &Vec<ItemExec>) -> (r: Vec<char>)
    ensures
        r@ == render_items(item_views(items@)),
{
    let ghost all = item_views(items@);
    let mut out: Vec<char> = Vec::new();
    let mut i: usize = 0;
    while i < items.len()
        invariant
            i <= items@.len(),
            all == item_views(items@),
            out@ == render_items(all.take(i as int)),
        decreases items@.len() - i,
    {
        let it = &items[i];
        assert(all[i as int] == it.view());
        assert(all.take(i + 1).drop_last() =~= all.take(i as int));
        assert(all.take(i + 1).last() == it.view());
        if i > 0 {
            if starts_with_str(&it.content, "--") {
                push_str(&mut out, "\n");
            } else {
                push_str(&mut out, "\n\n");
            }
        }
        extend_chars(&mut out, &it.content);
        if it.has_semi {
            push_str(&mut out, ";");
        }
        if let Some(c) = &it.comment {
            push_str(&mut out, " ");
            extend_chars(&mut out, c);
        }
        i = i + 1;
    }
    assert(all.take(i as int) =~= all);
    out
}

/// Formats a document from its syntax tree.
pub fn format_tree(root: &SqlNode) -> (r: String)
    ensures
        r@ == program_output(root@),
{
    proof {
        lemma_view_children(root);
    }
    let mut items: Vec<ItemExec> = Vec::new();
    let mut last_row: Option<usize> = None;
    let mut continues = false;
    let mut i: usize = 0;
    assert(item_views(items@) =~= seq![]);
    while i < root.children.len()
        invariant
            i <= root.children@.len(),
            root@.children.len() == root.children@.len(),
            forall|j: int| 0 <= j < root.children@.len() ==> #[trigger] root@.children[j] == root.children@[j]@,
            program_state(root@.children, i as int) == (ProgramState {
                items: item_views(items@),
                last_row,
                continues,
            }),
        decreases root.children@.len() - i,
    {
        let child = &root.children[i];
        let ghost before = item_views(items@);
        let ghost ch = root@.children;
        assert(ch[i as int] == child@);
        if kind_is(child, "statement") {
            last_row = Some(child.end_row);
            let rendered = format_statement(child);
            if !is_blank(&rendered) {
                let has_semi = semicolon_follows_at(root, i);
                items.push(ItemExec { content: rendered, has_semi, comment: None });
                assert(item_views(items@) =~= before.push(
                    Item { content: statement_output(child@), has_semi, comment: None },
                ));
                continues = true;
            } else {
                continues = false;
            }
        } else if kind_is(child, "comment") {
            let inline = match last_row {
                Some(row) => row == child.start_row,
                None => false,
            };
            if inline && items.len() > 0 {
                let ghost exec_before = items@;
                let mut last = items.pop().unwrap();
                last.comment = Some(chars_of(child.text.as_str()));
                items.push(last);
                assert(items@ =~= exec_before.update(exec_before.len() - 1, last));
                assert(item_views(items@) =~= before.update(
                    before.len() - 1,
                    Item { comment: Some(child@.text), ..before.last() },
                ));
            } else {
                items.push(
                    ItemExec { content: chars_of(child.text.as_str()), has_semi: false, comment: None },
                );
                assert(item_views(items@) =~= before.push(
                    Item { content: child@.text, has_semi: false, comment: None },
                ));
            }
            last_row = None;
            continues = false;
        } else if child.is_error {
            let has_semi = semicolon_follows_at(root, i);
            if continues && items.len() > 0 {
                let ghost exec_before = items@;
                let mut last = items.pop().unwrap();
                push_str(&mut last.content, " ");
                push_str(&mut last.content, child.text.as_str());
                last.has_semi = has_semi;
                items.push(last);
                assert(items@ =~= exec_before.update(exec_before.len() - 1, last));
                assert(item_views(items@) =~= before.update(
                    before.len() - 1,
                    Item {
                        content: before.last().content + " "@ + child@.text,
                        has_semi,
                        comment: before.last().comment,
                    },
                ));
                last_row = Some(child.end_row);
            } else {
                let text = chars_of(child.text.as_str());
                if !is_blank(&text) {
                    items.push(ItemExec { content: text, has_semi, comment: None });
                    assert(item_views(items@) =~= before.push(
                        Item { content: child@.text, has_semi, comment: None },
                    ));
                    last_row = Some(child.end_row);
                    continues = true;
                } else {
                    continues = false;
                }
            }
        } else {
            continues = false;
        }
        i = i + 1;
    }
    let out = render_item_list(&items);
    string_of(&out)
}

/// Formats SQL text: each statement by the formatting rules, comments and
/// text that cannot be parsed as written, entries separated by a blank line
/// (a single line break before a comment).
pub fn format_sql(source: &str) -> (r: String)
    ensures
        r@ == formatted(source@),
{
    match crate::parser::parse_sql(source) {
        Some(root) => format_tree(&root),
        None => source.to_owned(),
    }
}

/// A join of at least two parts holds the separator.
proof fn lemma_join_holds_separator(parts: Seq<Seq<char>>, sep: Seq<char>)
    requires
        parts.len() >= 2,
    ensures
        contains(join_with(parts, sep), sep),
{
    let front = join_with(parts.drop_last(), sep);
    let whole = join_with(parts, sep);
    assert(whole.subrange(front.len() as int, (front.len() + sep.len()) as int) =~= sep);
    assert(occurs_at(whole, sep, front.len() as int));
}

/// A join begins with its first part.
proof fn lemma_join_starts_with_first(parts: Seq<Seq<char>>, sep: Seq<char>)
    requires
        parts.len() >= 1,
    ensures
        join_with(parts, sep).len() >= parts[0].len(),
        join_with(parts, sep).subrange(0, parts[0].len() as int) == parts[0],
    decreases parts.len(),
{
    if parts.len() > 1 {
        lemma_join_starts_with_first(parts.drop_last(), sep);
        let front = join_with(parts.drop_last(), sep);
        assert(join_with(parts, sep).subrange(0, parts[0].len() as int) =~= front.subrange(
            0,
            parts[0].len() as int,
        ));
    }
}

/// Whether no character of `s` is `c`.
pub open spec fn lacks_char(s: Seq<char>, c: char) -> bool {
    forall|i: int| 0 <= i < s.len() ==> s[i] != c
}

/// A join of parts without `c`, by a separator without `c`, has no `c`.
proof fn lemma_join_lacks_char(parts: Seq<Seq<char>>, sep: Seq<char>, c: char)
    requires
        lacks_char(sep, c),
        forall|k: int| 0 <= k < parts.len() ==> lacks_char(#[trigger] parts[k], c),
    ensures
        lacks_char(join_with(parts, sep), c),
    decreases parts.len(),
{
    if parts.len() > 1 {
        lemma_join_lacks_char(parts.drop_last(), sep, c);
        let front = join_with(parts.drop_last(), sep);
        let whole = join_with(parts, sep);
        assert(lacks_char(parts.last(), c));
        assert forall|i: int| 0 <= i < whole.len() implies whole[i] != c by {
            if i < front.len() {
                assert(whole[i] == front[i]);
            } else if i < front.len() + sep.len() {
                assert(whole[i] == sep[i - front.len()]);
            } else {
                assert(whole[i] == parts.last()[i - front.len() - sep.len()]);
            }
        }
    } else if parts.len() == 1 {
        assert(lacks_char(parts[0], c));
    }
}

/// UPDATE is always multi-line: its formatting holds a line break.
pub proof fn law_update_is_multiline(t: SqlTree)
    ensures
        contains(update_statement(t), "\n"@),
{
    let p = update_parts(t.children);
    let head = "UPDATE "@ + p.table;
    let out = update_statement(t);
    reveal_strlit("\nSET ");
    reveal_strlit("\n");
    assert(out.subrange(head.len() as int, (head.len() + 1) as int) =~= "\n"@);
    assert(occurs_at(out, "\n"@, head.len() as int));
}

/// A `from` node with a join or a WHERE has a clause after its FROM line.
proof fn lemma_from_parts_tail(children: Seq<SqlTree>)
    ensures
        from_parts(children).has_join || from_parts(children).where_cond is Some
            ==> from_parts(children).tail.len() > 0,
    decreases children.len(),
{
    if children.len() > 0 {
        lemma_from_parts_tail(children.drop_last());
    }
}

/// A query with a JOIN, and no comment, is always multi-line: its formatting
/// holds a line break.
pub proof fn law_join_is_multiline(stmt: SqlTree)
    requires
        first_of_kind(stmt.children, "from"@) matches Some(f) && from_parts(f.children).has_join,
        !holds_comment(stmt),
    ensures
        contains(select_statement(stmt), "\n"@),
{
    let f = first_of_kind(stmt.children, "from"@).unwrap();
    lemma_from_parts_tail(f.children);
    let clauses = statement_clauses(stmt.children);
    assert(clauses.len() >= 2);
    lemma_join_holds_separator(clauses, "\n"@);
}

/// A query with a FROM clause, a subquery anywhere and no comment is
/// multi-line: its
/// formatting holds a line break.
pub proof fn law_subquery_is_multiline(stmt: SqlTree)
    requires
        tree_has_kind(stmt, "subquery"@),
        first_of_kind(stmt.children, "from"@) is Some,
        !holds_comment(stmt),
    ensures
        contains(select_statement(stmt), "\n"@),
{
    let clauses = statement_clauses(stmt.children);
    assert(clauses.len() >= 2);
    lemma_join_holds_separator(clauses, "\n"@);
}

/// A statement that holds a comment anywhere keeps its text as written, so
/// the comment is kept where it stands.
pub proof fn law_comment_inside_statement_is_kept(stmt: SqlTree)
    requires
        tree_has_kind(stmt, "comment"@) || tree_has_kind(stmt, "marginalia"@),
    ensures
        statement_output(stmt) == stmt.text,
{
    reveal(statement_output);
}

/// Several columns, or a call as column, put the columns on indented lines
/// under `SELECT` (and its modifiers, such as DISTINCT): the formatting of a
/// query without a comment begins with them, a line break and an indent.
pub proof fn law_multi_column_is_indented(stmt: SqlTree)
    requires
        is_multi_column(query_columns(first_of_kind(stmt.children, "select"@))),
        !holds_comment(stmt),
    ensures
        starts_with(
            select_statement(stmt),
            "SELECT"@ + spaced(query_modifiers(first_of_kind(stmt.children, "select"@))) + "\n    "@,
        ),
{
    let ch = stmt.children;
    let sel = first_of_kind(ch, "select"@);
    let cols = query_columns(sel);
    let head = "SELECT"@ + spaced(query_modifiers(sel)) + "\n    "@;
    let clauses = statement_clauses(ch);
    lemma_join_starts_with_first(clauses, "\n"@);
    let first = clauses[0];
    let out = select_statement(stmt);
    assert(first == head + join_with(cols, ",\n    "@));
    assert(out.subrange(0, head.len() as int) =~= first.subrange(0, head.len() as int));
    assert(first.subrange(0, head.len() as int) =~= head);
}

/// A join of at least two parts begins with the first part and a separator.
proof fn lemma_join_starts_with_first_sep(parts: Seq<Seq<char>>, sep: Seq<char>)
    requires
        parts.len() >= 2,
    ensures
        join_with(parts, sep).len() >= parts[0].len() + sep.len(),
        join_with(parts, sep).subrange(0, (parts[0].len() + sep.len()) as int) == parts[0] + sep,
    decreases parts.len(),
{
    let front = parts.drop_last();
    if parts.len() == 2 {
        assert(join_with(front, sep) == parts[0]);
        assert(join_with(parts, sep).subrange(0, (parts[0].len() + sep.len()) as int) =~= parts[0] + sep);
    } else {
        lemma_join_starts_with_first_sep(front, sep);
        let f = join_with(front, sep);
        assert(join_with(parts, sep).subrange(0, (parts[0].len() + sep.len()) as int) =~= f.subrange(
            0,
            (parts[0].len() + sep.len()) as int,
        ));
    }
}

/// A query with one plain column, no join, no subquery and no comment whose
/// WHERE joins conditions with AND or OR keeps `SELECT .. FROM ..` together on its first
/// line, and puts what follows on the lines after it.
pub proof fn law_complex_where_keeps_query_head(stmt: SqlTree)
    requires
        ({
            let ch = stmt.children;
            let cols = query_columns(first_of_kind(ch, "select"@));
            let p = match first_of_kind(ch, "from"@) {
                Some(f) => from_parts(f.children),
                None => no_from_parts(),
            };
            &&& !is_multi_column(cols)
            &&& !p.has_join
            &&& !tree_has_kind(stmt, "subquery"@)
            &&& p.where_cond matches Some(w) && is_complex_condition(w)
        }),
        !holds_comment(stmt),
    ensures
        ({
            let clauses = statement_clauses(stmt.children);
            &&& clauses.len() >= 3
            &&& starts_with(select_statement(stmt), clauses[0] + " "@ + clauses[1] + "\n"@)
        }),
{
    let ch = stmt.children;
    let clauses = statement_clauses(ch);
    assert(first_of_kind(ch, "from"@) is Some);
    lemma_from_parts_tail(first_of_kind(ch, "from"@).unwrap().children);
    assert(clauses.len() >= 3);
    let lines = seq![clauses[0] + " "@ + clauses[1]] + clauses.skip(2);
    assert(lines.len() >= 2);
    lemma_join_starts_with_first_sep(lines, "\n"@);
    assert(lines[0] == clauses[0] + " "@ + clauses[1]);
}

/// Whether ` AND ` or ` OR `, in any ASCII case, stands at index `i` of `c`.
pub open spec fn separator_at(c: Seq<char>, i: int) -> bool {
    matches_ignore_case_at(c, i, and_separator()) || matches_ignore_case_at(c, i, or_separator())
}

proof fn lemma_has_separator_from(c: Seq<char>, k: int)
    requires
        0 <= k <= c.len(),
    ensures
        has_separator(c, k, quoted_before(c, k)) <==> exists|i: int|
            k <= i < c.len() && !quoted_before(c, i) && #[trigger] separator_at(c, i),
    decreases c.len() - k,
{
    if k < c.len() {
        lemma_has_separator_from(c, k + 1);
        assert(quoted_before(c, k + 1) == quote_state(c[k], quoted_before(c, k)));
        if has_separator(c, k, quoted_before(c, k)) && !(!quoted_before(c, k) && separator_at(c, k)) {
            let i = choose|i: int| k + 1 <= i < c.len() && !quoted_before(c, i) && #[trigger] separator_at(c, i);
            assert(k <= i < c.len() && !quoted_before(c, i) && separator_at(c, i));
        }
        if exists|i: int| k <= i < c.len() && !quoted_before(c, i) && #[trigger] separator_at(c, i) {
            let i = choose|i: int| k <= i < c.len() && !quoted_before(c, i) && #[trigger] separator_at(c, i);
            if i > k {
                assert(k + 1 <= i < c.len() && !quoted_before(c, i) && separator_at(c, i));
            }
        }
    }
}

/// A condition is complex exactly when ` AND ` or ` OR `, in any mix of ASCII
/// upper and lower case, stands somewhere outside its string literals.
pub proof fn law_complex_condition_ignores_case_and_literals(c: Seq<char>)
    ensures
        is_complex_condition(c) <==> exists|i: int|
            0 <= i < c.len() && !quoted_before(c, i) && #[trigger] separator_at(c, i),
{
    lemma_has_separator_from(c, 0);
}

/// Inside a literal, breaking conditions copies the literal's characters.
proof fn lemma_break_copies_literal(c: Seq<char>, q: Seq<char>, p: int, i: int)
    requires
        is_literal(q),
        occurs_at(c, q, p),
        p < i <= p + q.len(),
    ensures
        break_conditions(c, i, i < p + q.len()).len() >= p + q.len() - i,
        break_conditions(c, i, i < p + q.len()).subrange(0, p + q.len() - i) == q.subrange(
            i - p,
            q.len() as int,
        ),
    decreases p + q.len() - i,
{
    let end = p + q.len();
    if i < end {
        lemma_break_copies_literal(c, q, p, i + 1);
        assert(c[i] == q[i - p]);
        if i + 1 < end {
            assert(q[i - p] != '\'');
        }
        let rest = break_conditions(c, i + 1, i + 1 < end);
        assert(break_conditions(c, i, true) == seq![c[i]] + rest);
        assert((seq![c[i]] + rest).subrange(0, end - i) =~= seq![c[i]] + rest.subrange(0, end - i - 1));
        assert(q.subrange(i - p, q.len() as int) =~= seq![q[i - p]] + q.subrange(i + 1 - p, q.len() as int));
    } else {
        assert(q.subrange(i - p, q.len() as int) =~= Seq::<char>::empty());
    }
}

/// A quote never matches a character of ` AND ` or ` OR `.
proof fn lemma_quote_not_separator(c: Seq<char>, i: int, j: int, sep: Seq<char>)
    requires
        sep == and_separator() || sep == or_separator(),
        matches_ignore_case_at(c, i, sep),
        i <= j < i + sep.len(),
    ensures
        c[j] != '\'',
{
    assert(c.subrange(i, i + sep.len())[j - i] == c[j]);
    assert(ascii_lower(c[j]) == ascii_lower(sep[j - i]));
    if c[j] == '\'' {
        assert(ascii_lower('\'') == '\'');
        let k = sep[j - i];
        assert(k == ' ' || k == 'A' || k == 'N' || k == 'D' || k == 'O' || k == 'R');
        assert(ascii_lower(k) != '\'') by {
            if 'A' <= k && k <= 'Z' {
                assert(65 <= (k as u8) && (k as u8) <= 90);
                assert(((((k as u8) + 32) as u8) as char) as u32 >= 97);
            }
        }
    }
}

/// Outside any literal, no literal opens or closes across the first `k`
/// characters of ` AND ` or ` OR `.
proof fn lemma_separator_keeps_quoting(c: Seq<char>, i: int, sep: Seq<char>, k: int)
    requires
        sep == and_separator() || sep == or_separator(),
        matches_ignore_case_at(c, i, sep),
        0 <= k <= sep.len(),
    ensures
        quoted_before(c, i + k) == quoted_before(c, i),
    decreases k,
{
    if k > 0 {
        lemma_separator_keeps_quoting(c, i, sep, k - 1);
        lemma_quote_not_separator(c, i, i + k - 1, sep);
    }
}

/// Breaking conditions from an index reached outside literals keeps a literal
/// that starts later where no literal is open.
proof fn lemma_break_keeps_literal(c: Seq<char>, q: Seq<char>, p: int, i: int)
    requires
        is_literal(q),
        occurs_at(c, q, p),
        !quoted_before(c, p),
        0 <= i <= p,
    ensures
        contains(break_conditions(c, i, quoted_before(c, i)), q),
    decreases p - i,
{
    let flag = quoted_before(c, i);
    if i == p {
        assert(c[p] == q[0]);
        assert(!matches_ignore_case_at(c, p, and_separator())) by {
            if matches_ignore_case_at(c, p, and_separator()) {
                lemma_quote_not_separator(c, p, p, and_separator());
            }
        }
        assert(!matches_ignore_case_at(c, p, or_separator())) by {
            if matches_ignore_case_at(c, p, or_separator()) {
                lemma_quote_not_separator(c, p, p, or_separator());
            }
        }
        lemma_break_copies_literal(c, q, p, p + 1);
        let rest = break_conditions(c, p + 1, p + 1 < p + q.len());
        assert(break_conditions(c, p, false) == seq![c[p]] + rest);
        assert(rest.subrange(0, q.len() - 1) == q.subrange(1, q.len() as int));
        assert((seq![c[p]] + rest).subrange(0, q.len() as int) =~= seq![c[p]] + rest.subrange(
            0,
            q.len() - 1,
        ));
        assert(seq![q[0]] + q.subrange(1, q.len() as int) =~= q);
        assert((seq![c[p]] + rest).subrange(0, q.len() as int) =~= q);
        assert(occurs_at(seq![c[p]] + rest, q, 0));
    } else if !flag && matches_ignore_case_at(c, i, and_separator()) {
        if i + 5 > p {
            lemma_quote_not_separator(c, i, p, and_separator());
            assert(c[p] == q[0]);
        }
        lemma_separator_keeps_quoting(c, i, and_separator(), 5);
        lemma_break_keeps_literal(c, q, p, i + 5);
        lemma_contains_prepend("\n    AND "@, break_conditions(c, i + 5, false), q);
    } else if !flag && matches_ignore_case_at(c, i, or_separator()) {
        if i + 4 > p {
            lemma_quote_not_separator(c, i, p, or_separator());
            assert(c[p] == q[0]);
        }
        lemma_separator_keeps_quoting(c, i, or_separator(), 4);
        lemma_break_keeps_literal(c, q, p, i + 4);
        lemma_contains_prepend("\n    OR "@, break_conditions(c, i + 4, false), q);
    } else {
        lemma_break_keeps_literal(c, q, p, i + 1);
        lemma_contains_prepend(seq![c[i]], break_conditions(c, i + 1, quoted_before(c, i + 1)), q);
    }
}

/// Trimming white space keeps a text that begins and ends with characters
/// that are not white space.
proof fn lemma_trim_keeps(s: Seq<char>, q: Seq<char>, at: int)
    requires
        q.len() > 0,
        !is_white(q[0]),
        !is_white(q[q.len() - 1]),
        occurs_at(s, q, at),
    ensures
        contains(trim(s), q),
{
    let t = lemma_trim_start_keeps(s, q, at);
    lemma_trim_end_keeps(trim_start(s), q, t);
}

proof fn lemma_trim_start_keeps(s: Seq<char>, q: Seq<char>, at: int) -> (r: int)
    requires
        q.len() > 0,
        !is_white(q[0]),
        occurs_at(s, q, at),
    ensures
        occurs_at(trim_start(s), q, r),
    decreases s.len(),
{
    if s.len() > 0 && is_white(s[0]) {
        assert(s.subrange(at, at + q.len())[0] == s[at]);
        assert(at > 0);
        assert(s.drop_first().subrange(at - 1, at - 1 + q.len()) =~= s.subrange(at, at + q.len()));
        lemma_trim_start_keeps(s.drop_first(), q, at - 1)
    } else {
        at
    }
}

proof fn lemma_trim_end_keeps(s: Seq<char>, q: Seq<char>, at: int)
    requires
        q.len() > 0,
        !is_white(q[q.len() - 1]),
        occurs_at(s, q, at),
    ensures
        contains(trim_end(s), q),
    decreases s.len(),
{
    if s.len() > 0 && is_white(s.last()) {
        assert(s.subrange(at, at + q.len())[q.len() - 1] == s[at + q.len() - 1]);
        assert(at + q.len() < s.len());
        assert(s.drop_last().subrange(at, at + q.len()) =~= s.subrange(at, at + q.len()));
        lemma_trim_end_keeps(s.drop_last(), q, at);
    } else {
        assert(occurs_at(trim_end(s), q, at));
    }
}

/// String literals in a WHERE condition are kept as written: a literal that
/// stands in the text of the condition's parts where no other literal is open
/// comes out whole in the formatted WHERE clause, whether the condition stays
/// inline or is broken at AND and OR.
pub proof fn law_where_keeps_literals(w: SqlTree, a: Seq<char>, q: Seq<char>, b: Seq<char>)
    requires
        join_with(texts_where_kind(w.children, "keyword_where"@, false), seq![' ']) == a + q + b,
        is_literal(q),
        !quoted_before(a, a.len() as int),
    ensures
        contains(where_clause(where_condition(w)), q),
{
    law_squash_keeps_literals(a, q, b);
    let cond = where_condition(w);
    let pos = squash_state(a).0.len() + if squash_state(a).2 {
        1int
    } else {
        0int
    };
    assert(occurs_at(cond, q, pos));
    if !is_complex_condition(cond) {
        assert(contains(cond, q));
        lemma_contains_prepend("WHERE "@, cond, q);
    } else {
        lemma_break_keeps_literal(cond, q, pos, 0);
        let broken = break_conditions(cond, 0, false);
        let at = choose|at: int| occurs_at(broken, q, at);
        assert(!is_white('\''));
        lemma_trim_keeps(broken, q, at);
        lemma_contains_prepend("WHERE\n    "@, trim(broken), q);
    }
}

/// A WHERE with AND or OR puts `WHERE` on its own line and indents what
/// follows.
pub proof fn law_complex_where_is_indented(condition: Seq<char>)
    requires
        is_complex_condition(condition),
    ensures
        starts_with(where_clause(condition), "WHERE\n    "@),
{
    let out = where_clause(condition);
    assert(out.subrange(0, ("WHERE\n    "@).len() as int) =~= "WHERE\n    "@);
}

/// A WHERE without AND or OR stays inline after the keyword.
pub proof fn law_simple_where_is_inline(condition: Seq<char>)
    requires
        !is_complex_condition(condition),
    ensures
        where_clause(condition) == "WHERE "@ + condition,
{
}

/// A query with one plain column, no join, no subquery, no comment and a
/// simple WHERE whose one-line form fits in 80 characters stays on one line: when its
/// clauses hold no line break, its formatting holds none.
pub proof fn law_short_simple_query_is_one_line(stmt: SqlTree)
    requires
        ({
            let ch = stmt.children;
            let cols = query_columns(first_of_kind(ch, "select"@));
            let p = match first_of_kind(ch, "from"@) {
                Some(f) => from_parts(f.children),
                None => no_from_parts(),
            };
            &&& !is_multi_column(cols)
            &&& !p.has_join
            &&& !tree_has_kind(stmt, "subquery"@)
            &&& !(p.where_cond matches Some(w) && is_complex_condition(w))
            &&& join_with(statement_clauses(ch), " "@).len() <= COMPACT_THRESHOLD
        }),
        !holds_comment(stmt),
        forall|k: int|
            0 <= k < statement_clauses(stmt.children).len() ==> lacks_char(
                #[trigger] statement_clauses(stmt.children)[k],
                '\n',
            ),
    ensures
        lacks_char(select_statement(stmt), '\n'),
{
    reveal_strlit(" ");
    lemma_join_lacks_char(statement_clauses(stmt.children), " "@, '\n');
}

/// An empty document formats to empty text.
pub proof fn law_empty_document_is_empty(root: SqlTree)
    requires
        root.children.len() == 0,
    ensures
        program_output(root) == Seq::<char>::empty(),
{
}

/// What occurs in a text still occurs after more is appended.
proof fn lemma_contains_extend(a: Seq<char>, b: Seq<char>, t: Seq<char>)
    requires
        contains(a, t),
    ensures
        contains(a + b, t),
{
    let at = choose|at: int| occurs_at(a, t, at);
    assert((a + b).subrange(at, at + t.len()) =~= a.subrange(at, at + t.len()));
    assert(occurs_at(a + b, t, at));
}

/// What occurs in a text still occurs after more is put in front.
proof fn lemma_contains_prepend(a: Seq<char>, b: Seq<char>, t: Seq<char>)
    requires
        contains(b, t),
    ensures
        contains(a + b, t),
{
    let at = choose|at: int| occurs_at(b, t, at);
    assert((a + b).subrange(a.len() + at, a.len() + at + t.len()) =~= b.subrange(at, at + t.len()));
    assert(occurs_at(a + b, t, a.len() + at));
}

/// A text occurs in itself.
proof fn lemma_contains_self(t: Seq<char>)
    ensures
        contains(t, t),
{
    assert(t.subrange(0, t.len() as int) =~= t);
    assert(occurs_at(t, t, 0));
}

/// Whether entry `it` keeps the text `c`, in its content or as its comment.
pub open spec fn item_keeps(it: Item, c: Seq<char>) -> bool {
    contains(it.content, c) || it.comment == Some(c)
}

/// The text of an entry holds what the entry keeps.
proof fn lemma_item_text_keeps(it: Item, c: Seq<char>)
    requires
        item_keeps(it, c),
    ensures
        contains(item_text(it), c),
{
    let semi = if it.has_semi {
        ";"@
    } else {
        seq![]
    };
    let tail = match it.comment {
        Some(k) => " "@ + k,
        None => seq![],
    };
    if contains(it.content, c) {
        lemma_contains_extend(it.content, semi + tail, c);
        assert(it.content + (semi + tail) =~= item_text(it));
    } else {
        lemma_contains_self(c);
        lemma_contains_prepend(" "@, c, c);
        lemma_contains_prepend(it.content + semi, " "@ + c, c);
        assert((it.content + semi) + (" "@ + c) =~= item_text(it));
    }
}

/// The rendering of the entries holds the text of each entry.
proof fn lemma_render_holds_items(items: Seq<Item>, k: int, c: Seq<char>)
    requires
        0 <= k < items.len(),
        contains(item_text(items[k]), c),
    ensures
        contains(render_items(items), c),
    decreases items.len(),
{
    let front = items.drop_last();
    let tail = item_separator(items.len() - 1, items.last()) + item_text(items.last());
    if k == items.len() - 1 {
        lemma_contains_prepend(item_separator(items.len() - 1, items.last()), item_text(items.last()), c);
        lemma_contains_prepend(render_items(front), tail, c);
    } else {
        assert(front[k] == items[k]);
        lemma_render_holds_items(front, k, c);
        lemma_contains_extend(render_items(front), tail, c);
    }
    assert(render_items(front) + tail =~= render_items(items));
}

/// The invariant of the pass over the document's children: every comment seen
/// so far is kept by some entry, and while a statement's end row is known, or
/// while the last child continued a statement, the last entry has no trailing
/// comment.
pub open spec fn keeps_comments(ch: Seq<SqlTree>, n: int, st: ProgramState) -> bool {
    &&& forall|j: int|
        0 <= j < n && #[trigger] ch[j].kind == "comment"@ ==> exists|k: int|
            0 <= k < st.items.len() && item_keeps(#[trigger] st.items[k], ch[j].text)
    &&& st.last_row is Some ==> st.items.len() > 0 && st.items.last().comment is None
    &&& st.continues ==> st.items.len() > 0 && st.items.last().comment is None
}

/// Entries that are kept unchanged, or only grown, keep what they kept.
proof fn lemma_kept_when_prefix_kept(
    ch: Seq<SqlTree>,
    n: int,
    st: ProgramState,
    st2: ProgramState,
)
    requires
        0 <= n < ch.len(),
        keeps_comments(ch, n, st),
        entries_kept(st, st2),
    ensures
        forall|j: int|
            0 <= j < n && #[trigger] ch[j].kind == "comment"@ ==> exists|k: int|
                0 <= k < st2.items.len() && item_keeps(#[trigger] st2.items[k], ch[j].text),
{
    assert forall|j: int| 0 <= j < n && #[trigger] ch[j].kind == "comment"@ implies exists|k: int|
        0 <= k < st2.items.len() && item_keeps(#[trigger] st2.items[k], ch[j].text) by {
        let k = choose|k: int| 0 <= k < st.items.len() && item_keeps(#[trigger] st.items[k], ch[j].text);
        if st2.items[k] != st.items[k] {
            if contains(st.items[k].content, ch[j].text) {
                lemma_contains_within(st2.items[k].content, st.items[k].content, ch[j].text);
            }
        }
        assert(item_keeps(st2.items[k], ch[j].text));
    }
}

/// What occurs in a part of a text occurs in the text.
proof fn lemma_contains_within(outer: Seq<char>, inner: Seq<char>, t: Seq<char>)
    requires
        contains(outer, inner),
        contains(inner, t),
    ensures
        contains(outer, t),
{
    let a = choose|at: int| occurs_at(outer, inner, at);
    let b = choose|at: int| occurs_at(inner, t, at);
    assert(outer.subrange(a + b, a + b + t.len()) =~= inner.subrange(b, b + t.len()));
    assert(occurs_at(outer, t, a + b));
}

/// The entries before index `n` of `st2` are those of `st`, or grown ones.
pub open spec fn entries_kept(st: ProgramState, st2: ProgramState) -> bool {
    &&& st.items.len() <= st2.items.len()
    &&& forall|k: int|
        0 <= k < st.items.len() ==> (#[trigger] st2.items[k] == st.items[k] || (contains(
            st2.items[k].content,
            st.items[k].content,
        ) && (st.items[k].comment is None || st2.items[k].comment == st.items[k].comment)))
}

proof fn lemma_step_statement(ch: Seq<SqlTree>, n: int, st: ProgramState, st2: ProgramState)
    requires
        0 <= n < ch.len(),
        keeps_comments(ch, n, st),
        st2 == program_step(st, ch, n),
        ch[n].kind == "statement"@,
        ch[n].kind != "comment"@,
        trim(statement_output(ch[n])).len() > 0,
    ensures
        keeps_comments(ch, n + 1, st2),
{
    assert(entries_kept(st, st2));
    lemma_kept_when_prefix_kept(ch, n, st, st2);
}

proof fn lemma_step_comment(ch: Seq<SqlTree>, n: int, st: ProgramState, st2: ProgramState)
    requires
        0 <= n < ch.len(),
        keeps_comments(ch, n, st),
        st2 == program_step(st, ch, n),
        ch[n].kind == "comment"@,
        ch[n].kind != "statement"@,
    ensures
        keeps_comments(ch, n + 1, st2),
{
    let c = ch[n];
    if st.last_row == Some(c.start_row) && st.items.len() > 0 {
        let last = st.items.len() - 1;
        lemma_contains_self(st.items[last].content);
        assert(entries_kept(st, st2));
        lemma_kept_when_prefix_kept(ch, n, st, st2);
        assert(item_keeps(st2.items[last], c.text));
    } else {
        assert(entries_kept(st, st2));
        lemma_kept_when_prefix_kept(ch, n, st, st2);
        lemma_contains_self(c.text);
        assert(item_keeps(st2.items[st.items.len() as int], c.text));
    }
}

proof fn lemma_step_error(ch: Seq<SqlTree>, n: int, st: ProgramState, st2: ProgramState)
    requires
        0 <= n < ch.len(),
        keeps_comments(ch, n, st),
        st2 == program_step(st, ch, n),
        ch[n].kind != "comment"@,
        ch[n].kind != "statement"@,
    ensures
        keeps_comments(ch, n + 1, st2),
{
    let c = ch[n];
    if c.is_error && st.continues && st.items.len() > 0 {
        let last = st.items.len() - 1;
        lemma_contains_self(st.items[last].content);
        lemma_contains_extend(st.items[last].content, " "@ + c.text, st.items[last].content);
        assert(st.items[last].content + (" "@ + c.text) =~= st2.items[last].content);
        assert(entries_kept(st, st2));
    } else {
        assert(entries_kept(st, st2));
    }
    lemma_kept_when_prefix_kept(ch, n, st, st2);
}

proof fn lemma_keeps_comments_step(ch: Seq<SqlTree>, n: int)
    requires
        0 <= n < ch.len(),
        keeps_comments(ch, n, program_state(ch, n)),
        forall|j: int|
            0 <= j < ch.len() && #[trigger] ch[j].kind == "statement"@ ==> trim(
                statement_output(ch[j]),
            ).len() > 0,
    ensures
        keeps_comments(ch, n + 1, program_state(ch, n + 1)),
{
    let st = program_state(ch, n);
    let st2 = program_state(ch, n + 1);
    assert(st2 == program_step(st, ch, n));
    reveal_strlit("comment");
    reveal_strlit("statement");
    assert("comment"@ != "statement"@) by {
        assert("comment"@[0] != "statement"@[0]);
    }
    if ch[n].kind == "statement"@ {
        lemma_step_statement(ch, n, st, st2);
    } else if ch[n].kind == "comment"@ {
        lemma_step_comment(ch, n, st, st2);
    } else {
        lemma_step_error(ch, n, st, st2);
    }
}

proof fn lemma_keeps_comments(ch: Seq<SqlTree>, n: int)
    requires
        0 <= n <= ch.len(),
        forall|j: int|
            0 <= j < ch.len() && #[trigger] ch[j].kind == "statement"@ ==> trim(
                statement_output(ch[j]),
            ).len() > 0,
    ensures
        keeps_comments(ch, n, program_state(ch, n)),
    decreases n,
{
    if n > 0 {
        lemma_keeps_comments(ch, n - 1);
        lemma_keeps_comments_step(ch, n - 1);
    }
}

/// Comments are kept as written: the formatted document holds the text of
/// each comment among its top-level children. This holds when every
/// statement formats to something that is not blank; a statement that
/// formatted to blank text would let a comment on its row take the place of
/// the comment that an earlier entry carries.
pub proof fn law_comments_are_kept(root: SqlTree, j: int)
    requires
        0 <= j < root.children.len(),
        root.children[j].kind == "comment"@,
        forall|i: int|
            0 <= i < root.children.len() && #[trigger] root.children[i].kind == "statement"@ ==> trim(
                statement_output(root.children[i]),
            ).len() > 0,
    ensures
        contains(program_output(root), root.children[j].text),
{
    let ch = root.children;
    lemma_keeps_comments(ch, ch.len() as int);
    let st = program_state(ch, ch.len() as int);
    let k = choose|k: int| 0 <= k < st.items.len() && item_keeps(#[trigger] st.items[k], ch[j].text);
    lemma_item_text_keeps(st.items[k], ch[j].text);
    lemma_render_holds_items(st.items, k, ch[j].text);
}

/// `st` holds an entry with text `out` and its semicolon, which later
/// children can no longer extend.
pub open spec fn semi_entry_kept(st: ProgramState, out: Seq<char>) -> bool {
    exists|k: int|
        0 <= k < st.items.len() && #[trigger] st.items[k].content == out && st.items[k].has_semi && (k
            == st.items.len() - 1 ==> !st.continues)
}

proof fn lemma_semi_entry_step(ch: Seq<SqlTree>, n: int, out: Seq<char>)
    requires
        0 <= n < ch.len(),
        semi_entry_kept(program_state(ch, n), out),
    ensures
        semi_entry_kept(program_state(ch, n + 1), out),
{
    let st = program_state(ch, n);
    let st2 = program_state(ch, n + 1);
    assert(st2 == program_step(st, ch, n));
    let k = choose|k: int|
        0 <= k < st.items.len() && #[trigger] st.items[k].content == out && st.items[k].has_semi && (k
            == st.items.len() - 1 ==> !st.continues);
    assert(0 <= k < st2.items.len() && st2.items[k].content == out && st2.items[k].has_semi && (k
        == st2.items.len() - 1 ==> !st2.continues));
}

proof fn lemma_semi_entry_from(ch: Seq<SqlTree>, i: int, n: int)
    requires
        0 <= i,
        i + 2 <= n <= ch.len(),
        ch[i].kind == "statement"@,
        trim(statement_output(ch[i])).len() > 0,
        semicolon_follows(ch, i),
        !ch[i + 1].is_error,
    ensures
        semi_entry_kept(program_state(ch, n), statement_output(ch[i])),
    decreases n,
{
    let out = statement_output(ch[i]);
    if n == i + 2 {
        let st0 = program_state(ch, i);
        let st1 = program_state(ch, i + 1);
        let st2 = program_state(ch, i + 2);
        assert(st1 == program_step(st0, ch, i));
        assert(st1.items.last() == Item { content: out, has_semi: true, comment: None });
        assert(st2 == program_step(st1, ch, i + 1));
        assert(ch[i + 1].kind == ";"@);
        reveal_strlit(";");
        reveal_strlit("statement");
        reveal_strlit("comment");
        assert((";"@).len() == 1 && ("statement"@).len() == 9 && ("comment"@).len() == 7);
        assert(ch[i + 1].kind != "statement"@ && ch[i + 1].kind != "comment"@);
        assert(st2.items == st1.items && !st2.continues);
        let k = st2.items.len() - 1;
        assert(st2.items[k].content == out && st2.items[k].has_semi);
    } else {
        lemma_semi_entry_from(ch, i, n - 1);
        lemma_semi_entry_step(ch, n - 1, out);
    }
}

/// Semicolons are kept: a statement that is followed by `;` in the source and
/// formats to something that is not blank is followed by `;` in the
/// formatted document, whatever entries come before or after it.
pub proof fn law_semicolons_are_kept(root: SqlTree, i: int)
    requires
        0 <= i < root.children.len(),
        root.children[i].kind == "statement"@,
        trim(statement_output(root.children[i])).len() > 0,
        semicolon_follows(root.children, i),
        !root.children[i + 1].is_error,
    ensures
        contains(program_output(root), statement_output(root.children[i]) + ";"@),
{
    let ch = root.children;
    let out = statement_output(ch[i]);
    lemma_semi_entry_from(ch, i, ch.len() as int);
    let st = program_state(ch, ch.len() as int);
    let k = choose|k: int|
        0 <= k < st.items.len() && #[trigger] st.items[k].content == out && st.items[k].has_semi && (k
            == st.items.len() - 1 ==> !st.continues);
    let it = st.items[k];
    let tail = match it.comment {
        Some(c) => " "@ + c,
        None => seq![],
    };
    lemma_contains_self(out + ";"@);
    lemma_contains_extend(out + ";"@, tail, out + ";"@);
    assert((out + ";"@) + tail =~= item_text(it));
    lemma_render_holds_items(st.items, k, out + ";"@);
}

/// `parts` in order, with `seps[k]` between part `k` and part `k + 1`.
pub open spec fn interleave(parts: Seq<Seq<char>>, seps: Seq<Seq<char>>) -> Seq<char>
    decreases parts.len(),
{
    if parts.len() == 0 {
        seq![]
    } else if parts.len() == 1 {
        parts[0]
    } else {
        interleave(parts.drop_last(), seps) + seps[parts.len() - 2] + parts.last()
    }
}

proof fn lemma_join_is_interleave(parts: Seq<Seq<char>>, sep: Seq<char>, seps: Seq<Seq<char>>)
    requires
        forall|k: int| 0 <= k < parts.len() - 1 ==> #[trigger] seps[k] == sep,
    ensures
        join_with(parts, sep) == interleave(parts, seps),
    decreases parts.len(),
{
    if parts.len() > 1 {
        lemma_join_is_interleave(parts.drop_last(), sep, seps);
        assert(seps[parts.len() - 2] == sep);
    }
}

proof fn lemma_head_join_is_interleave(clauses: Seq<Seq<char>>, seps: Seq<Seq<char>>, m: int)
    requires
        2 <= m <= clauses.len(),
        seps[0] == " "@,
        forall|k: int| 1 <= k < clauses.len() - 1 ==> #[trigger] seps[k] == "\n"@,
    ensures
        join_with(seq![clauses[0] + " "@ + clauses[1]] + clauses.take(m).skip(2), "\n"@) == interleave(
            clauses.take(m),
            seps,
        ),
    decreases m,
{
    let h = clauses[0] + " "@ + clauses[1];
    let t = clauses.take(m);
    if m == 2 {
        assert(seq![h] + t.skip(2) =~= seq![h]);
        assert(t.drop_last() =~= seq![clauses[0]]);
        assert(interleave(t.drop_last(), seps) == clauses[0]);
    } else {
        lemma_head_join_is_interleave(clauses, seps, m - 1);
        let lines = seq![h] + t.skip(2);
        assert(lines.drop_last() =~= seq![h] + clauses.take(m - 1).skip(2));
        assert(lines.last() == clauses[m - 1]);
        assert(t.drop_last() =~= clauses.take(m - 1));
        assert(seps[m - 2] == "\n"@);
    }
}

/// Every clause of a query without a comment comes out, in order: the
/// formatting is its clauses joined by single spaces or line breaks.
pub proof fn law_query_keeps_every_clause(stmt: SqlTree)
    requires
        !holds_comment(stmt),
    ensures
        ({
            let clauses = statement_clauses(stmt.children);
            exists|seps: Seq<Seq<char>>|
                #![trigger interleave(clauses, seps)]
                (forall|k: int| 0 <= k < clauses.len() - 1 ==> #[trigger] seps[k] == " "@ || seps[k]
                    == "\n"@) && select_statement(stmt) == interleave(clauses, seps)
        }),
{
    let clauses = statement_clauses(stmt.children);
    let n = clauses.len();
    let spaces = Seq::new(n, |k: int| " "@);
    let breaks = Seq::new(n, |k: int| "\n"@);
    let head = Seq::new(n, |k: int| if k == 0 { " "@ } else { "\n"@ });
    lemma_join_is_interleave(clauses, " "@, spaces);
    lemma_join_is_interleave(clauses, "\n"@, breaks);
    let out = select_statement(stmt);
    if out == interleave(clauses, spaces) {
        assert(forall|k: int| 0 <= k < n - 1 ==> #[trigger] spaces[k] == " "@ || spaces[k] == "\n"@);
    } else if out == interleave(clauses, breaks) {
        assert(forall|k: int| 0 <= k < n - 1 ==> #[trigger] breaks[k] == " "@ || breaks[k] == "\n"@);
    } else {
        assert(n >= 2);
        lemma_head_join_is_interleave(clauses, head, n as int);
        assert(clauses.take(n as int) =~= clauses);
        assert(forall|k: int| 0 <= k < n - 1 ==> #[trigger] head[k] == " "@ || head[k] == "\n"@);
    }
}

/// A join holds each of its parts.
proof fn lemma_join_contains_part(parts: Seq<Seq<char>>, sep: Seq<char>, k: int)
    requires
        0 <= k < parts.len(),
    ensures
        contains(join_with(parts, sep), parts[k]),
    decreases parts.len(),
{
    if parts.len() == 1 {
        lemma_contains_self(parts[0]);
    } else if k == parts.len() - 1 {
        lemma_contains_self(parts[k]);
        lemma_contains_prepend(join_with(parts.drop_last(), sep) + sep, parts[k], parts[k]);
    } else {
        lemma_join_contains_part(parts.drop_last(), sep, k);
        assert(parts.drop_last()[k] == parts[k]);
        lemma_contains_extend(join_with(parts.drop_last(), sep), sep + parts.last(), parts[k]);
        assert(join_with(parts.drop_last(), sep) + (sep + parts.last()) =~= join_with(parts, sep));
    }
}

/// Whether one of the first `k` children is the VALUES keyword.
pub open spec fn values_within(ch: Seq<SqlTree>, k: int) -> bool {
    exists|m: int| 0 <= m < k && #[trigger] ch[m].kind == "keyword_values"@
}

proof fn lemma_insert_in_values(ch: Seq<SqlTree>, k: int)
    requires
        0 <= k <= ch.len(),
    ensures
        insert_parts(ch.take(k)).in_values == values_within(ch, k),
    decreases k,
{
    if k > 0 {
        lemma_insert_in_values(ch, k - 1);
        assert(ch.take(k).drop_last() =~= ch.take(k - 1));
        assert(ch.take(k).last() == ch[k - 1]);
        let before = insert_parts(ch.take(k - 1));
        let after = insert_parts(ch.take(k));
        assert(after == insert_step(before, ch[k - 1]));
        if ch[k - 1].kind == "keyword_values"@ {
            reveal_strlit("keyword_values");
            reveal_strlit("keyword_insert");
            reveal_strlit("keyword_into");
            assert(("keyword_values"@)[8] != ("keyword_insert"@)[8]);
            assert(("keyword_values"@).len() != ("keyword_into"@).len());
            assert(values_within(ch, k));
        } else {
            assert(after.in_values == before.in_values);
            if values_within(ch, k) {
                let m = choose|m: int| 0 <= m < k && #[trigger] ch[m].kind == "keyword_values"@;
                assert(m < k - 1);
                assert(values_within(ch, k - 1));
            }
            if values_within(ch, k - 1) {
                let m = choose|m: int| 0 <= m < k - 1 && #[trigger] ch[m].kind == "keyword_values"@;
                assert(values_within(ch, k));
            }
        }
    } else {
        assert(ch.take(0).len() == 0);
        assert(!values_within(ch, 0));
    }
}

proof fn lemma_insert_head_holds(ch: Seq<SqlTree>, k: int, j: int)
    requires
        0 <= j < k <= ch.len(),
        !values_within(ch, j + 1),
        ch[j].kind != "keyword_insert"@,
        ch[j].kind != "keyword_into"@,
    ensures
        contains(insert_parts(ch.take(k)).head, ch[j].text),
    decreases k,
{
    assert(ch.take(k).drop_last() =~= ch.take(k - 1));
    assert(ch.take(k).last() == ch[k - 1]);
    let before = insert_parts(ch.take(k - 1));
    if k == j + 1 {
        lemma_insert_in_values(ch, j);
        assert(!values_within(ch, j)) by {
            if values_within(ch, j) {
                let m = choose|m: int| 0 <= m < j && #[trigger] ch[m].kind == "keyword_values"@;
                assert(0 <= m < j + 1 && ch[m].kind == "keyword_values"@);
            }
        }
        assert(ch[j].kind != "keyword_values"@) by {
            assert(!(0 <= j < j + 1 && ch[j].kind == "keyword_values"@));
        }
        lemma_contains_self(ch[j].text);
        lemma_contains_prepend(before.head + " "@, ch[j].text, ch[j].text);
        assert(insert_parts(ch.take(k)).head == (before.head + " "@) + ch[j].text);
    } else {
        lemma_insert_head_holds(ch, k - 1, j);
        let after = insert_parts(ch.take(k));
        if after.head != before.head {
            assert(after.head == before.head + (" "@ + ch[k - 1].text));
            lemma_contains_extend(before.head, " "@ + ch[k - 1].text, ch[j].text);
        }
    }
}

proof fn lemma_insert_rows_hold(ch: Seq<SqlTree>, k: int, j: int)
    requires
        0 <= j < k <= ch.len(),
        values_within(ch, j),
        ch[j].kind == "list"@,
    ensures
        insert_parts(ch.take(k)).rows.contains(ch[j].text),
    decreases k,
{
    assert(ch.take(k).drop_last() =~= ch.take(k - 1));
    assert(ch.take(k).last() == ch[k - 1]);
    let before = insert_parts(ch.take(k - 1));
    let after = insert_parts(ch.take(k));
    if k == j + 1 {
        lemma_insert_in_values(ch, j);
        reveal_strlit("list");
        reveal_strlit("keyword_values");
        reveal_strlit("keyword_insert");
        reveal_strlit("keyword_into");
        assert(("list"@).len() == 4 && ("keyword_values"@).len() == 14 && ("keyword_insert"@).len()
            == 14 && ("keyword_into"@).len() == 12);
        assert(ch[j].kind != "keyword_values"@ && ch[j].kind != "keyword_insert"@ && ch[j].kind
            != "keyword_into"@);
        assert(after.rows == before.rows.push(ch[j].text));
        assert(after.rows[after.rows.len() - 1] == ch[j].text);
    } else {
        lemma_insert_rows_hold(ch, k - 1, j);
        let i = choose|i: int| 0 <= i < before.rows.len() && before.rows[i] == ch[j].text;
        assert(after.rows.len() >= before.rows.len());
        assert(after.rows[i] == before.rows[i]);
    }
}

/// An INSERT keeps every part that comes before VALUES (the table, an alias,
/// the column list, or a query in `INSERT .. SELECT`): each one's text is in
/// the formatted statement.
pub proof fn law_insert_keeps_parts_before_values(node: SqlTree, j: int)
    requires
        0 <= j < node.children.len(),
        !values_within(node.children, j + 1),
        node.children[j].kind != "keyword_insert"@,
        node.children[j].kind != "keyword_into"@,
    ensures
        contains(insert_statement(node), node.children[j].text),
{
    let ch = node.children;
    lemma_insert_head_holds(ch, ch.len() as int, j);
    assert(ch.take(ch.len() as int) =~= ch);
    let p = insert_parts(ch);
    let out = insert_statement(node);
    let t = ch[j].text;
    if p.in_values {
        let rest = out.subrange(p.head.len() as int, out.len() as int);
        assert(out =~= p.head + rest);
        lemma_contains_extend(p.head, rest, t);
    }
}

/// An INSERT keeps every row of values: the text of each list after VALUES
/// is in the formatted statement.
pub proof fn law_insert_keeps_rows(node: SqlTree, j: int)
    requires
        0 <= j < node.children.len(),
        values_within(node.children, j),
        node.children[j].kind == "list"@,
    ensures
        contains(insert_statement(node), node.children[j].text),
{
    let ch = node.children;
    lemma_insert_rows_hold(ch, ch.len() as int, j);
    lemma_insert_in_values(ch, ch.len() as int);
    assert(ch.take(ch.len() as int) =~= ch);
    assert(values_within(ch, ch.len() as int)) by {
        let m = choose|m: int| 0 <= m < j && #[trigger] ch[m].kind == "keyword_values"@;
        assert(0 <= m < ch.len() && ch[m].kind == "keyword_values"@);
    }
    let p = insert_parts(ch);
    let t = ch[j].text;
    let r = choose|r: int| 0 <= r < p.rows.len() && p.rows[r] == t;
    let rest = join_with(p.tail, " "@);
    let last_line = if p.tail.len() == 0 {
        seq![]
    } else {
        "\n"@ + rest
    };
    let semi_tail = if p.tail.len() == 0 {
        seq![]
    } else {
        " "@ + rest
    };
    if p.rows.len() <= 1 {
        lemma_join_contains_part(p.rows, ", "@, r);
        let one_line = p.head + " VALUES "@ + join_with(p.rows, ", "@) + semi_tail;
        lemma_contains_prepend(p.head + " VALUES "@, join_with(p.rows, ", "@), t);
        lemma_contains_extend((p.head + " VALUES "@) + join_with(p.rows, ", "@), semi_tail, t);
        lemma_contains_prepend(p.head + "\nVALUES "@, join_with(p.rows, ", "@), t);
        lemma_contains_extend((p.head + "\nVALUES "@) + join_with(p.rows, ", "@), last_line, t);
    } else {
        lemma_join_contains_part(p.rows, ",\n    "@, r);
        lemma_contains_prepend(p.head + "\nVALUES\n    "@, join_with(p.rows, ",\n    "@), t);
        lemma_contains_extend((p.head + "\nVALUES\n    "@) + join_with(p.rows, ",\n    "@), last_line, t);
    }
}

/// The clause that a child of a `from` node stands for in the formatted
/// query: a WHERE clause, `ORDER BY` or `GROUP BY` with its body, a join as
/// written, or any other clause with its white space collapsed; nothing for
/// the FROM keyword, a comma or a relation (which go on the FROM line).
pub open spec fn from_clause_of(c: SqlTree) -> Seq<char> {
    if c.kind == "keyword_from"@ || c.kind == ","@ || c.kind == "relation"@ {
        seq![]
    } else if c.kind == "where"@ {
        where_clause(where_condition(c))
    } else if c.kind == "order_by"@ {
        let body = strip_leading_keywords(c.text, seq!["ORDER"@, "BY"@]);
        if body.len() > 0 {
            "ORDER BY "@ + body
        } else {
            seq![]
        }
    } else if c.kind == "group_by"@ {
        let body = strip_leading_keywords(c.text, seq!["GROUP"@, "BY"@]);
        if body.len() > 0 {
            "GROUP BY "@ + body
        } else {
            seq![]
        }
    } else if contains(lowercase(c.kind), "join"@) {
        c.text
    } else {
        squash(c.text)
    }
}

proof fn lemma_from_parts_hold(ch: Seq<SqlTree>, k: int, j: int)
    requires
        0 <= j < k <= ch.len(),
    ensures
        from_clause_of(ch[j]).len() > 0 ==> from_parts(ch.take(k)).tail.contains(
            from_clause_of(ch[j]),
        ),
        ch[j].kind == "relation"@ ==> from_parts(ch.take(k)).tables.contains(ch[j].text),
    decreases k,
{
    assert(ch.take(k).drop_last() =~= ch.take(k - 1));
    assert(ch.take(k).last() == ch[k - 1]);
    let before = from_parts(ch.take(k - 1));
    let after = from_parts(ch.take(k));
    if k == j + 1 {
        let c = ch[j];
        if from_clause_of(c).len() > 0 {
            assert(after.tail.last() == from_clause_of(c));
            assert(after.tail[after.tail.len() - 1] == from_clause_of(c));
        }
        if c.kind == "relation"@ {
            reveal_strlit("relation");
            reveal_strlit("keyword_from");
            reveal_strlit(",");
            assert(("relation"@).len() == 8 && ("keyword_from"@).len() == 12 && (","@).len() == 1);
            assert(c.kind != "keyword_from"@ && c.kind != ","@);
            assert(after.tables == before.tables.push(c.text));
            assert(after.tables[after.tables.len() - 1] == c.text);
        }
    } else {
        lemma_from_parts_hold(ch, k - 1, j);
        if from_clause_of(ch[j]).len() > 0 {
            let i = choose|i: int| 0 <= i < before.tail.len() && before.tail[i] == from_clause_of(ch[j]);
            assert(after.tail.len() >= before.tail.len() && after.tail[i] == before.tail[i]);
        }
        if ch[j].kind == "relation"@ {
            let i = choose|i: int| 0 <= i < before.tables.len() && before.tables[i] == ch[j].text;
            assert(after.tables.len() >= before.tables.len() && after.tables[i] == before.tables[i]);
        }
    }
}

proof fn lemma_interleave_contains(parts: Seq<Seq<char>>, seps: Seq<Seq<char>>, k: int)
    requires
        0 <= k < parts.len(),
    ensures
        contains(interleave(parts, seps), parts[k]),
    decreases parts.len(),
{
    if parts.len() == 1 {
        lemma_contains_self(parts[0]);
    } else if k == parts.len() - 1 {
        lemma_contains_self(parts[k]);
        lemma_contains_prepend(
            interleave(parts.drop_last(), seps) + seps[parts.len() - 2],
            parts[k],
            parts[k],
        );
    } else {
        lemma_interleave_contains(parts.drop_last(), seps, k);
        assert(parts.drop_last()[k] == parts[k]);
        lemma_contains_extend(
            interleave(parts.drop_last(), seps),
            seps[parts.len() - 2] + parts.last(),
            parts[k],
        );
        assert(interleave(parts.drop_last(), seps) + (seps[parts.len() - 2] + parts.last())
            =~= interleave(parts, seps));
    }
}

/// A query without a comment keeps every part of its FROM node: each
/// relation's text, and the clause of every other child (WHERE, joins,
/// GROUP BY, ORDER BY, LIMIT, ...), are in the formatted query.
pub proof fn law_query_keeps_from_parts(stmt: SqlTree, j: int)
    requires
        !holds_comment(stmt),
        first_of_kind(stmt.children, "from"@) matches Some(f) && 0 <= j < f.children.len(),
    ensures
        ({
            let f = first_of_kind(stmt.children, "from"@)->0;
            &&& from_clause_of(f.children[j]).len() > 0 ==> contains(
                select_statement(stmt),
                from_clause_of(f.children[j]),
            )
            &&& f.children[j].kind == "relation"@ ==> contains(
                select_statement(stmt),
                f.children[j].text,
            )
        }),
{
    let ch = stmt.children;
    let f = first_of_kind(ch, "from"@)->0;
    let fc = f.children;
    lemma_from_parts_hold(fc, fc.len() as int, j);
    assert(fc.take(fc.len() as int) =~= fc);
    let p = from_parts(fc);
    let clauses = statement_clauses(ch);
    law_query_keeps_every_clause(stmt);
    let seps = choose|seps: Seq<Seq<char>>|
        #![trigger interleave(clauses, seps)]
        (forall|k: int| 0 <= k < clauses.len() - 1 ==> #[trigger] seps[k] == " "@ || seps[k] == "\n"@)
            && select_statement(stmt) == interleave(clauses, seps);
    assert(clauses.len() == 2 + p.tail.len());
    if from_clause_of(fc[j]).len() > 0 {
        let i = choose|i: int| 0 <= i < p.tail.len() && p.tail[i] == from_clause_of(fc[j]);
        assert(clauses[2 + i] == p.tail[i]);
        lemma_interleave_contains(clauses, seps, 2 + i);
    }
    if fc[j].kind == "relation"@ {
        let i = choose|i: int| 0 <= i < p.tables.len() && p.tables[i] == fc[j].text;
        lemma_join_contains_part(p.tables, ", "@, i);
        lemma_contains_prepend("FROM "@, join_with(p.tables, ", "@), fc[j].text);
        assert(clauses[1] == "FROM "@ + join_with(p.tables, ", "@));
        lemma_interleave_contains(clauses, seps, 1);
        lemma_contains_within(select_statement(stmt), clauses[1], fc[j].text);
    }
}

} // verus!

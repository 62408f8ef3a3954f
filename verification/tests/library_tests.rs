use sql_lsp::extension::{
    asset_name, binary_path, find_asset, missing_asset_message, needs_download, platform_target,
    HostArch, HostOs,
};
use sql_lsp::formatter::{format_sql, format_tree};
use sql_lsp::ir::{render, SqlIr};
use sql_lsp::linter::{lint_sql, lint_tree_of};
use sql_lsp::server::{
    diagnostic_span, formatting_edit, route_notification, route_request, LintDebouncer,
    NotificationRoute, RequestRoute, WorkerAction, WorkerEvent, DEBOUNCE_MS, IDLE_WAIT_MS,
};
use sql_lsp::parser::{display_excerpt, parse_sql, tree_from_records, SqlNode, SyntaxNode};
use sql_lsp::text::{chars_of, normalize_whitespace};
use sql_lsp::wire::{classify_header_line, frame_message, read_header_line, HeaderLine, HeaderStep};
use sql_lsp::dump::{dump_lines, has_error};
use sql_lsp::extension::{LaunchAction, LaunchEvent, Launcher};

fn leaf(kind: &str, text: &str) -> SqlNode {
    SqlNode {
        kind: kind.to_string(),
        text: text.to_string(),
        text_ok: true,
        start_byte: 0,
        end_byte: text.len(),
        start_row: 0,
        start_column: 0,
        end_row: 0,
        is_error: false,
        is_missing: false,
        children: vec![],
    }
}

fn node(kind: &str, text: &str, children: Vec<SqlNode>) -> SqlNode {
    let mut n = leaf(kind, text);
    n.children = children;
    n
}

fn s(v: &[char]) -> String {
    v.iter().collect()
}

// ── Syntax trees ─────────────────────────────────────────────────────────────

#[test]
fn parse_gives_program_root() {
    let root = parse_sql("select 1").unwrap();
    assert_eq!(root.kind, "program");
    assert_eq!(root.children.len(), 1);
    assert_eq!(root.children[0].kind, "statement");
    assert_eq!(root.children[0].text, "select 1");
}

#[test]
fn records_rebuild_tree() {
    let recs = vec![
        SyntaxNode::new("program", "a b", true, 0, 3, 0, 0, 0, false, false, 2),
        SyntaxNode::new("x", "a", true, 0, 1, 0, 0, 0, false, false, 0),
        SyntaxNode::new("y", "b", true, 2, 3, 0, 2, 0, false, false, 1),
        SyntaxNode::new("z", "b", true, 2, 3, 0, 2, 0, false, false, 0),
    ];
    let t = tree_from_records(&recs).unwrap();
    assert_eq!(t.kind, "program");
    assert_eq!(t.children.len(), 2);
    assert_eq!(t.children[1].children[0].kind, "z");
}

#[test]
fn records_missing_children_give_no_tree() {
    let recs = vec![SyntaxNode::new("program", "", true, 0, 0, 0, 0, 0, false, false, 1)];
    assert!(tree_from_records(&recs).is_none());
    assert!(tree_from_records(&vec![]).is_none());
}

#[test]
fn excerpt_short_text_is_whole() {
    assert_eq!(display_excerpt("select 1").unwrap(), "select 1");
}

#[test]
fn excerpt_long_text_is_cut_at_forty_bytes() {
    let text = "a".repeat(41);
    assert_eq!(display_excerpt(&text).unwrap(), format!("{}...", "a".repeat(40)));
}

#[test]
fn excerpt_cut_inside_character_is_none() {
    let text = format!("{}é{}", "a".repeat(39), "b".repeat(5));
    assert!(display_excerpt(&text).is_none());
}

// ── Formatter ────────────────────────────────────────────────────────────────

#[test]
fn update_is_always_multiline() {
    let out = format_sql("update t set a = 1");
    assert_eq!(out, "UPDATE t\nSET a = 1");
}

#[test]
fn join_kind_is_found_without_case() {
    // a FROM part whose kind names a join in capitals still counts as a join
    let select = node("select", "select id", vec![
        leaf("keyword_select", "select"),
        node("select_expression", "id", vec![leaf("term", "id")]),
    ]);
    let from = node("from", "from a LEFT_JOIN b", vec![
        leaf("keyword_from", "from"),
        leaf("relation", "a"),
        leaf("LEFT_JOIN", "left join b on a.x = b.x"),
    ]);
    let root = node("program", "", vec![node("statement", "", vec![select, from])]);
    assert_eq!(format_tree(&root), "SELECT id\nFROM a\nleft join b on a.x = b.x");
}

#[test]
fn comment_kept_after_statement_on_same_row() {
    let out = format_sql("select * from users; -- note\n-- next\nselect 1");
    assert!(out.contains("-- note"), "{}", out);
    assert!(out.contains("-- next"), "{}", out);
}

#[test]
fn unparsed_tail_stays_with_statement() {
    let out = format_sql("SELECT * FROM users WHERE");
    assert_eq!(out, "SELECT * FROM users WHERE");
}

#[test]
fn delete_keeps_its_text() {
    assert_eq!(format_sql("delete from t where id = 1"), "delete from t where id = 1");
}

#[test]
fn returning_on_own_line_after_update() {
    let out = format_sql("update t set a = 1 returning *");
    assert_eq!(out, "UPDATE t\nSET a = 1\nreturning *");
}

#[test]
fn select_without_from_has_no_from_clause() {
    assert_eq!(format_sql("select 1"), "SELECT 1");
}

#[test]
fn order_by_keywords_stripped_without_case() {
    assert_eq!(format_sql("select id from users order   by   name"), "SELECT id FROM users ORDER BY name");
}

#[test]
fn query_of_exactly_eighty_bytes_stays_on_one_line() {
    // "SELECT id FROM " + table: make the whole line 80 bytes
    let table = "t".repeat(80 - "SELECT id FROM ".len());
    let out = format_sql(&format!("select id from {}", table));
    assert_eq!(out.len(), 80);
    assert!(!out.contains('\n'));
    let table2 = "t".repeat(81 - "SELECT id FROM ".len());
    let out2 = format_sql(&format!("select id from {}", table2));
    assert!(out2.contains('\n'));
}

#[test]
fn normalize_is_idempotent_on_example() {
    let once = normalize_whitespace(&chars_of("  a \t b\n\nc  "));
    assert_eq!(s(&once), "a b c");
    let twice = normalize_whitespace(&once);
    assert_eq!(once, twice);
}

#[test]
fn normalize_treats_unicode_space_as_space() {
    let out = normalize_whitespace(&chars_of("a\u{3000}b\u{a0}c"));
    assert_eq!(s(&out), "a b c");
}

// ── Linter ───────────────────────────────────────────────────────────────────

#[test]
fn syntax_error_names_text() {
    let diags = lint_sql("SELECT * FROM users WHERE");
    let e = diags.iter().find(|d| d.is_error).unwrap();
    assert_eq!(e.message, "Syntax error near 'WHERE'");
    assert_eq!((e.line, e.col), (0, 20));
}

#[test]
fn error_node_children_not_linted() {
    let mut err = node("ERROR", "x = NULL", vec![node("binary_expression", "x = NULL", vec![
        leaf("field", "x"),
        leaf("=", "="),
        node("literal", "NULL", vec![leaf("keyword_null", "NULL")]),
    ])]);
    err.is_error = true;
    let root = node("program", "x = NULL", vec![err]);
    let diags = lint_tree_of(&root);
    assert_eq!(diags.len(), 1);
    assert_eq!(diags[0].message, "Syntax error near 'x = NULL'");
}

#[test]
fn error_node_starting_with_limit_is_quiet() {
    let mut err = node("ERROR", "LIMIT $1", vec![leaf("keyword_limit", "LIMIT"), leaf("parameter", "$1")]);
    err.is_error = true;
    let root = node("program", "LIMIT $1", vec![err]);
    assert!(lint_tree_of(&root).is_empty());
}

#[test]
fn always_true_message_quotes_literals() {
    let diags = lint_sql("SELECT id FROM users WHERE 'a' = 'A'");
    let w = diags.iter().find(|d| d.message.contains("always true")).unwrap();
    assert_eq!(w.message, "Condition ''a' = 'A'' is always true — likely debug code");
}

#[test]
fn update_warning_position() {
    let diags = lint_sql("\n  UPDATE users SET name = 'x'");
    let w = diags.iter().find(|d| d.message.starts_with("UPDATE")).unwrap();
    assert_eq!((w.line, w.col), (1, 2));
    assert!(!w.is_error);
}

#[test]
fn limit_warning_at_limit() {
    let diags = lint_sql("SELECT id FROM users LIMIT 10");
    let w = diags.iter().find(|d| d.message.contains("LIMIT")).unwrap();
    assert_eq!((w.line, w.col), (0, 21));
}

// ── Token rendering ──────────────────────────────────────────────────────────

#[test]
fn render_tokens() {
    let tokens = vec![
        SqlIr::Keyword("SELECT".to_string()),
        SqlIr::Space,
        SqlIr::Text("a".to_string()),
        SqlIr::Comma,
        SqlIr::Text("b".to_string()),
        SqlIr::Newline,
        SqlIr::Keyword("FROM".to_string()),
        SqlIr::Space,
        SqlIr::Literal("'t'".to_string()),
    ];
    assert_eq!(render(&tokens), "SELECT a, b\nFROM 't'");
    assert_eq!(render(&[]), "");
}

// ── Language server ──────────────────────────────────────────────────────────

#[test]
fn blank_document_gets_no_edit() {
    assert!(formatting_edit("  \n\t").is_none());
}

#[test]
fn formatted_document_gets_no_edit() {
    assert!(formatting_edit("SELECT * FROM users").is_none());
}

#[test]
fn edit_spans_whole_document() {
    let e = formatting_edit("select * from users").unwrap();
    assert_eq!((e.end_line, e.end_character), (0, 19));
    assert_eq!(e.new_text, "SELECT * FROM users");
}

#[test]
fn edit_end_ignores_final_line_break() {
    let e = formatting_edit("select *\r\nfrom users\n").unwrap();
    assert_eq!((e.end_line, e.end_character), (1, 10));
}

#[test]
fn edit_end_counts_bytes() {
    let e = formatting_edit("select 'é' from t").unwrap();
    assert_eq!((e.end_line, e.end_character), (0, 18));
}

#[test]
fn span_is_one_character_and_wraps() {
    let d = sql_lsp::linter::Diagnostic { line: 3, col: 4, message: String::new(), is_error: true };
    assert_eq!(diagnostic_span(&d), (3, 4, 3, 5));
    let e = sql_lsp::linter::Diagnostic { line: 0, col: u32::MAX, message: String::new(), is_error: false };
    assert_eq!(diagnostic_span(&e), (0, u32::MAX, 0, 0));
}

#[test]
fn requests_are_routed() {
    assert!(matches!(route_request("textDocument/formatting"), RequestRoute::Formatting));
    match route_request("textDocument/hover") {
        RequestRoute::MethodNotFound(m) => assert_eq!(m, "method not implemented: textDocument/hover"),
        RequestRoute::Formatting => panic!("hover is not formatting"),
    }
}

#[test]
fn notifications_are_routed() {
    assert!(matches!(route_notification("textDocument/didOpen"), NotificationRoute::DidOpen));
    assert!(matches!(route_notification("textDocument/didChange"), NotificationRoute::DidChange));
    assert!(matches!(route_notification("initialized"), NotificationRoute::Ignore));
}

#[test]
fn latest_document_is_linted() {
    let mut w: LintDebouncer<&str> = LintDebouncer::new();
    assert_eq!(w.timeout_ms(5), IDLE_WAIT_MS);
    assert!(matches!(w.step(WorkerEvent::Received("a"), 100), WorkerAction::Wait));
    assert_eq!(w.timeout_ms(100), DEBOUNCE_MS);
    assert!(matches!(w.step(WorkerEvent::Received("b"), 200), WorkerAction::Wait));
    assert_eq!(w.timeout_ms(450), 50);
    assert_eq!(w.timeout_ms(900), 0);
    assert!(matches!(w.step(WorkerEvent::TimedOut, 500), WorkerAction::Publish("b")));
    assert!(matches!(w.step(WorkerEvent::TimedOut, 600), WorkerAction::Wait));
    assert!(matches!(w.step(WorkerEvent::Disconnected, 700), WorkerAction::Stop));
}

// ── Wire format ──────────────────────────────────────────────────────────────

#[test]
fn frame_counts_bytes() {
    assert_eq!(frame_message("{}"), "Content-Length: 2\r\n\r\n{}");
    assert_eq!(frame_message("é"), "Content-Length: 2\r\n\r\né");
    assert_eq!(frame_message(""), "Content-Length: 0\r\n\r\n");
}

#[test]
fn header_round_trips() {
    let framed = frame_message(&"x".repeat(1234));
    let header = framed.split("\r\n").next().unwrap();
    assert!(matches!(classify_header_line(header), HeaderLine::ContentLength(Some(1234))));
    assert!(matches!(classify_header_line("Content-Length: 1234\r\n"), HeaderLine::ContentLength(Some(1234))));
}

#[test]
fn header_lines_classified() {
    assert!(matches!(classify_header_line("\r\n"), HeaderLine::End));
    assert!(matches!(classify_header_line(""), HeaderLine::End));
    assert!(matches!(classify_header_line("Content-Length: +7"), HeaderLine::ContentLength(Some(7))));
    assert!(matches!(classify_header_line("Content-Length: x7"), HeaderLine::ContentLength(None)));
    assert!(matches!(classify_header_line("Content-Length: "), HeaderLine::ContentLength(None)));
    assert!(matches!(
        classify_header_line("Content-Length: 99999999999999999999999999"),
        HeaderLine::ContentLength(None)
    ));
    assert!(matches!(classify_header_line("Content-Type: utf-8"), HeaderLine::Other));
}

// ── Editor extension ─────────────────────────────────────────────────────────

#[test]
fn platform_targets() {
    assert_eq!(platform_target(HostOs::Mac, HostArch::Aarch64), Some("aarch64-apple-darwin"));
    assert_eq!(platform_target(HostOs::Linux, HostArch::X8664), Some("x86_64-unknown-linux-gnu"));
    assert_eq!(platform_target(HostOs::Windows, HostArch::X8664), Some("x86_64-pc-windows-msvc"));
    assert_eq!(platform_target(HostOs::Windows, HostArch::Aarch64), None);
    assert_eq!(platform_target(HostOs::Linux, HostArch::X86), None);
}

#[test]
fn asset_and_binary_names() {
    assert_eq!(asset_name("x86_64-apple-darwin"), "sql-lsp-x86_64-apple-darwin");
    assert_eq!(binary_path("v0.3.0"), "sql-lsp-v0.3.0");
}

#[test]
fn asset_lookup() {
    let names = vec!["a".to_string(), "sql-lsp-x".to_string(), "sql-lsp-x".to_string()];
    assert_eq!(find_asset(&names, "sql-lsp-x"), Some(1));
    assert_eq!(find_asset(&names, "sql-lsp-y"), None);
    assert_eq!(
        missing_asset_message("v1", "sql-lsp-y", &names),
        "release v1 has no asset 'sql-lsp-y' — available: a, sql-lsp-x, sql-lsp-x"
    );
}

#[test]
fn download_decision() {
    assert!(needs_download(None, "p", true));
    assert!(needs_download(Some("old"), "p", true));
    assert!(needs_download(Some("p"), "p", false));
    assert!(!needs_download(Some("p"), "p", true));
}

#[test]
fn complex_where_keeps_query_head_on_one_line() {
    let out = format_sql("select * from users where id = 1 and status = 'active' or role = 'admin'");
    assert_eq!(
        out,
        "SELECT * FROM users\nWHERE\n    id = 1\n    AND status = 'active'\n    OR role = 'admin'"
    );
}

#[test]
fn subquery_is_multiline() {
    let out = format_sql("select * from (select id from users) as u");
    assert_eq!(out, "SELECT *\nFROM (select id from users) as u");
}

#[test]
fn literal_white_space_is_kept() {
    let out = format_sql("select * from users where name = 'a  b'");
    assert_eq!(out, "SELECT * FROM users WHERE name = 'a  b'");
}

#[test]
fn comment_inside_statement_is_kept() {
    let out = format_sql("select id -- c\nfrom users");
    assert_eq!(out, "select id -- c\nfrom users");
}

#[test]
fn and_inside_literal_is_not_split() {
    let out = format_sql("select * from users where name = 'tom and jerry'");
    assert_eq!(out, "SELECT * FROM users WHERE name = 'tom and jerry'");
}

#[test]
fn condition_split_after_wide_uppercase_char() {
    let out = format_sql("select * from t where ß = 1 and b = 2");
    assert_eq!(out, "SELECT * FROM t\nWHERE\n    ß = 1\n    AND b = 2");
}

#[test]
fn mixed_case_and_is_split() {
    let out = format_sql("select * from t where a = 1 AnD b = 2");
    assert_eq!(out, "SELECT * FROM t\nWHERE\n    a = 1\n    AND b = 2");
}

#[test]
fn order_by_keyword_needs_word_end() {
    let out = format_sql("select id from t order by bytes");
    assert_eq!(out, "SELECT id FROM t ORDER BY bytes");
}

#[test]
fn insert_with_several_rows_keeps_each_row() {
    let out = format_sql("insert into t (a) values (1), (2)");
    assert_eq!(out, "INSERT INTO t (a)\nVALUES\n    (1),\n    (2)");
}

#[test]
fn limit_and_distinct_are_kept() {
    let out = format_sql("select distinct id from users limit 10 offset 5");
    assert_eq!(out, "SELECT distinct id FROM users limit 10 offset 5");
}

#[test]
fn second_relation_is_kept() {
    let out = format_sql("select id from a, b group by id");
    assert_eq!(out, "SELECT id FROM a, b GROUP BY id");
}

#[test]
fn insert_on_conflict_is_kept() {
    let out = format_sql("insert into t as x (a) values (1) on conflict do nothing");
    assert_eq!(out, "INSERT INTO t as x (a) VALUES (1) on conflict do nothing");
}

#[test]
fn having_and_limit_keep_their_place() {
    let out = format_sql("select a, count(*) from t group by a having count(*) > 1 order by a limit 3");
    assert_eq!(
        out,
        "SELECT\n    a,\n    count(*)\nFROM t\nGROUP BY a having count(*) > 1\nORDER BY a\nlimit 3"
    );
}

#[test]
fn window_clause_is_kept() {
    let out = format_sql("select a from t window w as (partition by a)");
    assert_eq!(out, "SELECT a FROM t window w as (partition by a)");
}

#[test]
fn update_from_is_kept() {
    let out = format_sql("update t set a = 1 from u where t.id = u.id");
    assert_eq!(out, "UPDATE t\nSET a = 1\nfrom u where t.id = u.id");
}

#[test]
fn insert_select_is_kept() {
    let out = format_sql("insert into t select * from u");
    assert_eq!(out, "INSERT INTO t select * from u");
}

#[test]
fn long_single_column_query_breaks_every_clause() {
    let out = format_sql("select id from very_long_table_name where some_really_long_column_name = 'a_long_value_here'");
    assert_eq!(out, "SELECT id\nFROM very_long_table_name\nWHERE some_really_long_column_name = 'a_long_value_here'");
}

#[test]
fn dump_lists_nodes_in_preorder() {
    let mut stmt = node("statement", "select 1", vec![leaf("keyword_select", "select")]);
    stmt.end_row = 1;
    let root = node("program", "select 1", vec![stmt]);
    let lines = dump_lines(&root).unwrap();
    assert_eq!(
        lines,
        vec![
            "program [1..1] \"select 1\"".to_string(),
            "  statement [1..2] \"select 1\"".to_string(),
            "    keyword_select [1..1] \"select\"".to_string(),
        ]
    );
}

#[test]
fn dump_cuts_long_text_and_marks_errors() {
    let text = "a".repeat(45);
    let mut err = leaf("ERROR", &text);
    err.is_error = true;
    let lines = dump_lines(&node("program", "x", vec![err])).unwrap();
    assert_eq!(lines[1], format!("  ERROR [1..1] \"{}...\" ⚠ ERROR", "a".repeat(40)));
}

#[test]
fn dump_refuses_cut_inside_char() {
    let text = format!("{}é{}", "a".repeat(39), "b".repeat(5));
    assert!(dump_lines(&leaf("x", &text)).is_none());
}

#[test]
fn error_anywhere_is_found() {
    let mut missing = leaf("identifier", "");
    missing.is_missing = true;
    assert!(has_error(&node("program", "x", vec![node("statement", "x", vec![missing])])));
    assert!(!has_error(&node("program", "x", vec![leaf("statement", "x")])));
}

fn head_tokens() -> Vec<SqlIr> {
    vec![SqlIr::Keyword("SELECT".to_string()), SqlIr::Space]
}

fn tail_tokens() -> Vec<SqlIr> {
    vec![SqlIr::Text("id".to_string()), SqlIr::Comma, SqlIr::Newline]
}

#[test]
fn render_of_joined_streams_is_joined_text() {
    let mut ab = head_tokens();
    ab.extend(tail_tokens());
    assert_eq!(render(&ab), format!("{}{}", render(&head_tokens()), render(&tail_tokens())));
    assert_eq!(render(&ab).len(), 6 + 1 + 2 + 2 + 1);
}

#[test]
fn normalized_text_keeps_words_with_single_spaces() {
    let out: String = normalize_whitespace(&chars_of("  id \n  =\t1 ")).into_iter().collect();
    assert_eq!(out, "id = 1");
    let again: String = normalize_whitespace(&chars_of(&out)).into_iter().collect();
    assert_eq!(again, out);
    let blank: String = normalize_whitespace(&chars_of(" \n ")).into_iter().collect();
    assert_eq!(blank, "");
}

#[test]
fn burst_of_documents_publishes_only_the_last() {
    let mut w: LintDebouncer<u32> = LintDebouncer::new();
    for (k, t) in [(1u32, 0u64), (2, 100), (3, 250), (4, 400)] {
        assert!(matches!(w.step(WorkerEvent::Received(k), t), WorkerAction::Wait));
    }
    assert_eq!(w.timeout_ms(400), DEBOUNCE_MS);
    assert!(matches!(w.step(WorkerEvent::TimedOut, 700), WorkerAction::Publish(4)));
    assert!(matches!(w.step(WorkerEvent::TimedOut, 800), WorkerAction::Wait));
}

#[test]
fn framed_message_reads_back() {
    let body = "{\"id\":\"é\"}";
    let framed = frame_message(body);
    let (head, rest) = framed.split_at(framed.find('\n').unwrap() + 1);
    assert!(matches!(classify_header_line(head), HeaderLine::ContentLength(Some(n)) if n == body.len()));
    let (blank, msg) = rest.split_at(2);
    assert!(matches!(classify_header_line(blank), HeaderLine::End));
    assert_eq!(msg, body);
}

#[test]
fn launcher_uses_binary_on_path() {
    let mut l = Launcher::new();
    assert!(matches!(l.step(LaunchEvent::Started), LaunchAction::LookUpPath));
    let a = l.step(LaunchEvent::PathLookup(Some("/bin/sql-lsp".to_string())));
    assert!(matches!(a, LaunchAction::RunFound(ref p) if p == "/bin/sql-lsp"));
}

#[test]
fn launcher_downloads_once_then_reuses() {
    let mut l = Launcher::new();
    let names = vec!["sql-lsp-x86_64-apple-darwin".to_string(), "sql-lsp-x86_64-unknown-linux-gnu".to_string()];
    for round in 0..2 {
        l.step(LaunchEvent::Started);
        assert!(matches!(l.step(LaunchEvent::PathLookup(None)), LaunchAction::QueryPlatform));
        assert!(matches!(l.step(LaunchEvent::Platform(HostOs::Linux, HostArch::X8664)), LaunchAction::FetchRelease));
        let a = l.step(LaunchEvent::Release("v1".to_string(), names.clone()));
        assert!(matches!(a, LaunchAction::CheckExists(ref p) if p == "sql-lsp-v1"));
        let a = l.step(LaunchEvent::Exists(true));
        if round == 0 {
            assert!(matches!(a, LaunchAction::Download(1, ref p) if p == "sql-lsp-v1"));
            let a = l.step(LaunchEvent::Downloaded);
            assert!(matches!(a, LaunchAction::RunInstalled(ref p) if p == "sql-lsp-v1"));
        } else {
            assert!(matches!(a, LaunchAction::RunInstalled(ref p) if p == "sql-lsp-v1"));
        }
    }
}

#[test]
fn launcher_reports_missing_asset_and_platform() {
    let mut l = Launcher::new();
    l.step(LaunchEvent::Started);
    l.step(LaunchEvent::PathLookup(None));
    assert!(matches!(l.step(LaunchEvent::Platform(HostOs::Windows, HostArch::Aarch64)), LaunchAction::UnsupportedPlatform));
    l.step(LaunchEvent::Started);
    l.step(LaunchEvent::PathLookup(None));
    l.step(LaunchEvent::Platform(HostOs::Mac, HostArch::Aarch64));
    let a = l.step(LaunchEvent::Release("v2".to_string(), vec!["a".to_string(), "b".to_string()]));
    assert!(matches!(a, LaunchAction::Fail(ref m) if m == "release v2 has no asset 'sql-lsp-aarch64-apple-darwin' — available: a, b"));
    assert!(matches!(l.step(LaunchEvent::Downloaded), LaunchAction::Ignore));
}

#[test]
fn dump_shows_invalid_text_marker() {
    let mut bad = leaf("identifier", "");
    bad.text_ok = false;
    let lines = dump_lines(&bad).unwrap();
    assert_eq!(lines, vec!["identifier [1..1] \"<invalid utf8>\"".to_string()]);
}

#[test]
fn literal_survives_broken_condition() {
    let out = format_sql("select * from t where a = 'x  and  y' and b = 1");
    assert_eq!(out, "SELECT * FROM t\nWHERE\n    a = 'x  and  y'\n    AND b = 1");
}

#[test]
fn header_reader_hands_over_body_length() {
    let framed = frame_message("{\"a\":1}");
    let mut lines = framed.split_inclusive('\n');
    assert!(matches!(read_header_line(0, lines.next().unwrap()), HeaderStep::Continue(7)));
    assert!(matches!(read_header_line(7, lines.next().unwrap()), HeaderStep::Body(7)));
    assert!(matches!(read_header_line(0, "Content-Length: x\r\n"), HeaderStep::Invalid));
    assert!(matches!(read_header_line(5, "Content-Type: y\r\n"), HeaderStep::Continue(5)));
}

use sql_lsp::formatter::format_sql;


// RULE 1: short + simple → single line
#[test]
fn formatter_test_select_star() {
    let out = format_sql("select * from users");
    assert_eq!(out, "SELECT * FROM users");
}

// RULE 2: multiple columns → indented multiline SELECT
#[test]
fn formatter_test_select_columns_where() {
    let out = format_sql("select id, name from users where id = 1");
    assert_eq!(out, "SELECT\n    id,\n    name\nFROM users\nWHERE id = 1");
}

// RULE 1: single column, short → single line
#[test]
fn formatter_test_select_order_by() {
    let out = format_sql("select id from users order by name");
    assert_eq!(out, "SELECT id FROM users ORDER BY name");
}

// RULE 5: UPDATE always multiline; RULE 3: simple WHERE inline
#[test]
fn formatter_test_update_with_where() {
    let out = format_sql("update users set name = 'test' where id = 1");
    assert_eq!(out, "UPDATE users\nSET name = 'test'\nWHERE id = 1");
}

// RULE 5: UPDATE always multiline
#[test]
fn formatter_test_update_without_where() {
    let out = format_sql("update users set name = 'test'");
    assert_eq!(out, "UPDATE users\nSET name = 'test'");
}

// RULE 6: short INSERT → single line
#[test]
fn formatter_test_insert() {
    let out = format_sql("insert into users (name) values ('test')");
    assert_eq!(out, "INSERT INTO users (name) VALUES ('test')");
}

#[test]
fn formatter_test_already_uppercase() {
    let out = format_sql("SELECT * FROM users");
    assert_eq!(out, "SELECT * FROM users");
}

// RULE 2: 4 columns → indented multiline
#[test]
fn formatter_test_multi_column_select() {
    let out = format_sql("select id, name, email, created_at from users");
    assert_eq!(
        out,
        "SELECT\n    id,\n    name,\n    email,\n    created_at\nFROM users"
    );
}

// RULE 4: WHERE with AND → indented conditions
#[test]
fn formatter_test_complex_where() {
    let out = format_sql("select * from users where id = 1 and status = 'active'");
    assert!(out.contains("WHERE\n    "), "expected indented WHERE: {}", out);
    assert!(out.contains("AND"), "expected AND: {}", out);
}

// Idempotency: formatting an already-formatted query must not change it (Bug 1/3/5).
#[test]
fn formatter_test_where_idempotent() {
    let input = "SELECT * FROM users WHERE id = 1 AND status = 'active'";
    let first = format_sql(input);
    let second = format_sql(&first);
    assert_eq!(first, second, "second format changed the output");
}

#[test]
fn formatter_test_group_by() {
    let out = format_sql("select id from users group by id");
    assert_eq!(out, "SELECT id FROM users GROUP BY id");
}

#[test]
fn formatter_test_group_by_and_order_by() {
    let out = format_sql("select id from users group by id order by id");
    assert_eq!(out, "SELECT id FROM users GROUP BY id ORDER BY id");
}

#[test]
fn formatter_test_literal_not_uppercased() {
    let out = format_sql("select * from users where name = 'hello world'");
    assert!(
        out.contains("'hello world'"),
        "literal must be preserved: {}",
        out
    );
}

#[test]
fn formatter_test_comment_preserved() {
    let out = format_sql("-- find all users\nselect * from users");
    assert!(
        out.starts_with("-- find all users"),
        "comment lost: {}",
        out
    );
    assert!(out.contains("SELECT *"), "statement lost: {}", out);
}

// Bug 6: inline comment after statement must stay on the same line
#[test]
fn formatter_test_inline_comment_stays_inline() {
    let out = format_sql("SELECT * FROM users; -- my comment");
    assert!(
        out.contains("SELECT * FROM users; -- my comment"),
        "inline comment was separated: {}",
        out
    );
}

#[test]
fn formatter_test_multi_statement() {
    let out = format_sql("select * from users; select id from orders;");
    assert!(out.contains("SELECT *"), "first statement lost: {}", out);
    assert!(out.contains("SELECT id"), "second statement lost: {}", out);
    assert!(out.contains(';'), "semicolons should be preserved: {}", out);
}

// ── RULE 1: single-line threshold ────────────────────────────────────────

#[test]
fn formatter_test_single_col_long_query_goes_multiline() {
    // single column, simple WHERE, but > 80 chars → must break into multiple lines
    let input = "select id from very_long_table_name where some_really_long_column_name = 'a_long_value_here'";
    let out = format_sql(input);
    assert!(
        out.contains('\n'),
        "long query should be multiline: {}",
        out
    );
}

// ── RULE 2: function call as column ──────────────────────────────────────

#[test]
fn formatter_test_function_call_column_is_multiline() {
    // count(*) contains '(' → treated as multi_column → indented SELECT
    let out = format_sql("select count(*) from users");
    assert_eq!(out, "SELECT\n    count(*)\nFROM users");
}

#[test]
fn formatter_test_function_mixed_with_regular_column() {
    let out = format_sql("select id, count(*) from users group by id");
    assert_eq!(
        out,
        "SELECT\n    id,\n    count(*)\nFROM users\nGROUP BY id"
    );
}

// ── RULE 4: complex WHERE with OR ────────────────────────────────────────

#[test]
fn formatter_test_complex_where_or() {
    let out = format_sql("select * from users where status = 'active' or role = 'admin'");
    assert!(
        out.contains("WHERE\n    "),
        "expected indented WHERE: {}",
        out
    );
    assert!(out.contains("OR"), "expected OR: {}", out);
}

#[test]
fn formatter_test_complex_where_mixed_and_or() {
    let out =
        format_sql("select * from users where id = 1 and status = 'active' or role = 'admin'");
    assert!(out.contains("WHERE\n    "), "expected indented WHERE: {}", out);
    assert!(out.contains("AND"), "AND missing: {}", out);
    assert!(out.contains("OR"), "OR missing: {}", out);
}

// ── RULE 4 in UPDATE ─────────────────────────────────────────────────────

#[test]
fn formatter_test_update_complex_where() {
    let out = format_sql("update users set name = 'test' where id = 1 and status = 'active'");
    assert!(
        out.starts_with("UPDATE users\nSET name = 'test'"),
        "unexpected: {}",
        out
    );
    assert!(
        out.contains("WHERE\n    "),
        "expected indented WHERE in UPDATE: {}",
        out
    );
    assert!(out.contains("AND"), "AND missing: {}", out);
}

// ── RULE 5: UPDATE multiple assignments ──────────────────────────────────

#[test]
fn formatter_test_update_multiple_assignments() {
    let out = format_sql("update users set name = 'test', email = 'a@b.com' where id = 1");
    assert_eq!(
        out,
        "UPDATE users\nSET name = 'test', email = 'a@b.com'\nWHERE id = 1"
    );
}

// ── RULE 6: INSERT edge cases ─────────────────────────────────────────────

#[test]
fn formatter_test_insert_no_column_list() {
    // INSERT without explicit column list — exercises the cols.is_empty() branch
    let out = format_sql("insert into users values ('test')");
    assert_eq!(out, "INSERT INTO users VALUES ('test')");
}

#[test]
fn formatter_test_insert_long_goes_multiline() {
    let out = format_sql(
        "insert into users (id, name, email) values (1, 'a_very_long_name_here', 'very_long_email@example.com')",
    );
    assert!(
        out.contains('\n'),
        "long INSERT should be multiline: {}",
        out
    );
    assert!(out.contains("INSERT INTO"), "INSERT INTO missing: {}", out);
    assert!(out.contains("VALUES"), "VALUES missing: {}", out);
}

#[test]
fn formatter_test_insert_long_no_cols_multiline() {
    // Long INSERT without column list → multiline using the cols.is_empty() branch
    let out = format_sql(
        "insert into users values (1, 'a_very_long_name_value_here', 'extremely_long_email@some_long_domain.com')",
    );
    assert!(out.contains('\n'), "long INSERT should be multiline: {}", out);
    assert!(out.starts_with("INSERT INTO users"), "unexpected: {}", out);
    assert!(out.contains("VALUES"), "VALUES missing: {}", out);
}

// ── RULE 8: JOIN → always multiline ──────────────────────────────────────

#[test]
fn formatter_test_join_is_multiline() {
    let out = format_sql(
        "select id from users join orders on users.id = orders.user_id",
    );
    assert!(
        out.contains('\n'),
        "JOIN query should be multiline: {}",
        out
    );
    assert!(out.contains("FROM users"), "FROM missing: {}", out);
}

#[test]
fn formatter_test_join_multi_column() {
    let out = format_sql(
        "select id, name from users join orders on users.id = orders.user_id",
    );
    assert!(out.contains("SELECT\n    id"), "expected indented SELECT: {}", out);
    assert!(out.contains('\n'), "should be multiline: {}", out);
}

// ── WITH / CTE fallback ───────────────────────────────────────────────────

#[test]
fn formatter_test_cte_preserved() {
    let input = "with active as (select * from users where status = 'active') select * from active";
    let out = format_sql(input);
    // CTE falls back to raw text — the WITH clause must not be dropped
    assert!(
        out.to_uppercase().contains("WITH"),
        "WITH clause dropped: {}",
        out
    );
    assert!(
        out.to_uppercase().contains("SELECT"),
        "SELECT dropped: {}",
        out
    );
}

// ── ORDER BY / GROUP BY qualified names ──────────────────────────────────

#[test]
fn formatter_test_order_by_qualified_name() {
    let out = format_sql("select id from users order by users.name");
    assert!(
        out.contains("ORDER BY users.name"),
        "qualified ORDER BY truncated: {}",
        out
    );
}

#[test]
fn formatter_test_group_by_multiple_columns() {
    let out = format_sql("select id from users group by id, name");
    assert!(
        out.contains("GROUP BY id, name"),
        "GROUP BY columns wrong: {}",
        out
    );
}

#[test]
fn formatter_test_select_where_group_order_single_line() {
    // All clauses present but short enough → single line
    let out = format_sql("select id from users where active = 1 group by id order by id");
    assert!(
        !out.contains('\n'),
        "short query should stay single line: {}",
        out
    );
}

// ── Idempotency: additional cases ────────────────────────────────────────

#[test]
fn formatter_test_idempotent_multi_column() {
    let input = "select id, name, email from users where status = 'active'";
    let first = format_sql(input);
    let second = format_sql(&first);
    assert_eq!(first, second, "multi-column format not idempotent");
}

#[test]
fn formatter_test_idempotent_complex_where_or() {
    let input = "select * from users where id = 1 or status = 'active'";
    let first = format_sql(input);
    let second = format_sql(&first);
    assert_eq!(first, second, "OR WHERE format not idempotent");
}

#[test]
fn formatter_test_idempotent_update_complex_where() {
    let input = "update users set name = 'x' where id = 1 and active = 1";
    let first = format_sql(input);
    let second = format_sql(&first);
    assert_eq!(first, second, "UPDATE complex WHERE not idempotent");
}

#[test]
fn formatter_test_idempotent_long_insert() {
    let input = "insert into users (id, name, email) values (1, 'a_very_long_name_here', 'very_long_email@example.com')";
    let first = format_sql(input);
    let second = format_sql(&first);
    assert_eq!(first, second, "long INSERT not idempotent");
}

// ── Comment edge cases ───────────────────────────────────────────────────

#[test]
fn formatter_test_multiple_comments_before_statement() {
    let out = format_sql("-- comment 1\n-- comment 2\nselect * from users");
    assert!(out.contains("-- comment 1"), "first comment lost: {}", out);
    assert!(out.contains("-- comment 2"), "second comment lost: {}", out);
    assert!(out.contains("SELECT *"), "statement lost: {}", out);
}

#[test]
fn formatter_test_comment_between_statements() {
    let out = format_sql("select * from users;\n-- separator\nselect * from orders;");
    assert!(out.contains("SELECT * FROM users"), "first stmt lost: {}", out);
    assert!(out.contains("-- separator"), "comment lost: {}", out);
    assert!(out.contains("SELECT * FROM orders"), "second stmt lost: {}", out);
}

// ── Multi-statement edge cases ────────────────────────────────────────────

#[test]
fn formatter_test_mixed_statement_types() {
    let input =
        "select * from users; update users set name = 'x' where id = 1; insert into users (name) values ('y');";
    let out = format_sql(input);
    assert!(out.contains("SELECT *"), "SELECT missing: {}", out);
    assert!(out.contains("UPDATE users"), "UPDATE missing: {}", out);
    assert!(out.contains("INSERT INTO"), "INSERT missing: {}", out);
}

#[test]
fn formatter_test_single_statement_with_semicolon() {
    let out = format_sql("select * from users;");
    assert_eq!(out, "SELECT * FROM users;");
}

// ── Empty / degenerate input ──────────────────────────────────────────────

#[test]
fn formatter_test_empty_input() {
    let out = format_sql("");
    assert_eq!(out, "");
}

#[test]
fn formatter_test_comment_only() {
    let out = format_sql("-- just a comment");
    assert_eq!(out, "-- just a comment");
}

// ── Case sensitivity ─────────────────────────────────────────────────────

#[test]
fn formatter_test_mixed_case_keywords() {
    let out = format_sql("SeLeCt * FrOm users");
    assert_eq!(out, "SELECT * FROM users");
}

#[test]
fn formatter_test_mixed_case_and_in_where() {
    // `And` (mixed case) must still trigger complex WHERE formatting
    let out = format_sql("select * from users where id = 1 And status = 'active'");
    assert!(
        out.contains("WHERE\n    ") || out.contains("WHERE id"),
        "WHERE not handled: {}",
        out
    );
}

// ── Whitespace normalization ──────────────────────────────────────────────

#[test]
fn formatter_test_extra_whitespace_in_where() {
    let out = format_sql("select * from users where   id   =   1");
    assert!(
        out.contains("WHERE"),
        "WHERE clause lost: {}",
        out
    );
    assert!(
        !out.contains("   "),
        "extra whitespace not normalized: {}",
        out
    );
}

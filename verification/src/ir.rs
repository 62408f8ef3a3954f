//! A token stream for SQL output and its rendering to text.
use vstd::prelude::*;
use crate::text::{push_str, string_of};

verus! {

/// A piece of rendered SQL.
#[derive(Debug)]
pub enum SqlIr {
    Keyword(String),
    Text(String),
    Literal(String),
    Space,
    Newline,
    Comma,
}

/// The text that one token stands for.
pub open spec fn token_text(token: SqlIr) -> Seq<char> {
    match token {
        SqlIr::Keyword(s) => s@,
        SqlIr::Text(s) => s@,
        SqlIr::Literal(s) => s@,
        SqlIr::Space => seq![' '],
        SqlIr::Newline => seq!['\n'],
        SqlIr::Comma => seq![',', ' '],
    }
}

/// The concatenation of the texts of `tokens`, in order.
pub open spec fn rendered(tokens: Seq<SqlIr>) -> Seq<char>
    decreases tokens.len(),
{
    if tokens.len() == 0 {
        seq![]
    } else {
        rendered(tokens.drop_last()) + token_text(tokens.last())
    }
}

/// Renders a token stream: keywords, text and literals as written, a space,
/// a newline, or a comma followed by a space.
pub fn render(tokens: &[SqlIr]) -> (out: String)
    ensures
        out@ == rendered(tokens@),
{
    let mut out: Vec<char> = Vec::new();
    let mut i: usize = 0;
    while i < tokens.len()
        invariant
            i <= tokens@.len(),
            out@ == rendered(tokens@.take(i as int)),
        decreases tokens@.len() - i,
    {
        let ghost before = out@;
        match &tokens[i] {
            SqlIr::Keyword(s) => push_str(&mut out, s.as_str()),
            SqlIr::Text(s) => push_str(&mut out, s.as_str()),
            SqlIr::Literal(s) => push_str(&mut out, s.as_str()),
            SqlIr::Space => out.push(' '),
            SqlIr::Newline => out.push('\n'),
            SqlIr::Comma => {
                out.push(',');
                out.push(' ');
            },
        }
        assert(tokens@.take(i as int + 1).drop_last() =~= tokens@.take(i as int));
        assert(out@ =~= before + token_text(tokens@[i as int]));
        i = i + 1;
    }
    assert(tokens@.take(i as int) =~= tokens@);
    string_of(&out)
}

/// The length of the text that one token stands for: that of its string, 1
/// for a space or a newline, 2 for a comma.
pub open spec fn token_len(token: SqlIr) -> nat {
    match token {
        SqlIr::Keyword(s) => s@.len(),
        SqlIr::Text(s) => s@.len(),
        SqlIr::Literal(s) => s@.len(),
        SqlIr::Space => 1,
        SqlIr::Newline => 1,
        SqlIr::Comma => 2,
    }
}

/// The sum of the token lengths of `tokens`.
pub open spec fn tokens_len(tokens: Seq<SqlIr>) -> nat
    decreases tokens.len(),
{
    if tokens.len() == 0 {
        0
    } else {
        tokens_len(tokens.drop_last()) + token_len(tokens.last())
    }
}

/// Rendering two token streams one after the other gives the rendering of
/// the first followed by that of the second.
pub proof fn law_render_concatenates(a: Seq<SqlIr>, b: Seq<SqlIr>)
    ensures
        rendered(a + b) == rendered(a) + rendered(b),
    decreases b.len(),
{
    if b.len() == 0 {
        assert(a + b =~= a);
        assert(rendered(a) + rendered(b) =~= rendered(a));
    } else {
        law_render_concatenates(a, b.drop_last());
        assert((a + b).drop_last() =~= a + b.drop_last());
        assert((a + b).last() == b.last());
        assert(rendered(a) + rendered(b) =~= rendered(a) + rendered(b.drop_last()) + token_text(
            b.last(),
        ));
    }
}

/// The rendered text is as long as the sum of its tokens' lengths: each token
/// is copied whole, with nothing added between them.
pub proof fn law_render_length(tokens: Seq<SqlIr>)
    ensures
        rendered(tokens).len() == tokens_len(tokens),
    decreases tokens.len(),
{
    if tokens.len() > 0 {
        law_render_length(tokens.drop_last());
    }
}

} // verus!

//! Character-level text operations with their mathematical meaning.
use vstd::prelude::*;

verus! {

broadcast use vstd::string::group_string_axioms;

/// The characters of `s`, in order.
pub fn chars_of(s: &str) -> (v: Vec<char>)
    ensures
        v@ == s@,
{
    let mut v: Vec<char> = Vec::new();
    for c in it: s.chars()
        invariant
            v@ == it.seq().take(it.index() as int),
            it.seq() == s@,
    {
        v.push(c);
        assert(it.seq().take(it.index() as int + 1) =~= v@);
    }
    v
}

/// The string whose characters are `v`.
///
/// Collects the characters with `FromIterator<char> for String`; the contract
/// says that the string holds exactly those characters, in order.
#[verifier::external_body]
pub(crate) fn string_of(v: &Vec<char>) -> (s: String)
    ensures
        s@ == v@,
{
    v.iter().collect()
}

/// Appends `s` to `out`.
pub fn extend_chars(out: &mut Vec<char>, s: &Vec<char>)
    ensures
        final(out)@ == old(out)@ + s@,
{
    let mut i: usize = 0;
    while i < s.len()
        invariant
            i <= s@.len(),
            out@ == old(out)@ + s@.take(i as int),
        decreases s@.len() - i,
    {
        out.push(s[i]);
        i = i + 1;
        assert(out@ =~= old(out)@ + s@.take(i as int));
    }
    assert(s@.take(i as int) =~= s@);
}

/// Appends the characters of `s` to `out`.
pub fn push_str(out: &mut Vec<char>, s: &str)
    ensures
        final(out)@ == old(out)@ + s@,
{
    let v = chars_of(s);
    extend_chars(out, &v);
}

/// A copy of the characters of `v` from `start` up to `end`.
pub fn slice_chars(v: &Vec<char>, start: usize, end: usize) -> (r: Vec<char>)
    requires
        start <= end <= v@.len(),
    ensures
        r@ == v@.subrange(start as int, end as int),
{
    let mut r: Vec<char> = Vec::new();
    let mut i = start;
    while i < end
        invariant
            start <= i <= end <= v@.len(),
            r@ == v@.subrange(start as int, i as int),
        decreases end - i,
    {
        r.push(v[i]);
        i = i + 1;
        assert(r@ =~= v@.subrange(start as int, i as int));
    }
    r
}

/// Unicode `White_Space`, the property that `char::is_whitespace` tests.
pub open spec fn is_white(c: char) -> bool {
    ||| ('\t' <= c && c <= '\r')
    ||| c == ' '
    ||| c == '\u{85}'
    ||| c == '\u{a0}'
    ||| c == '\u{1680}'
    ||| ('\u{2000}' <= c && c <= '\u{200a}')
    ||| c == '\u{2028}'
    ||| c == '\u{2029}'
    ||| c == '\u{202f}'
    ||| c == '\u{205f}'
    ||| c == '\u{3000}'
}

/// Whether `c` is Unicode white space.
pub fn is_whitespace(c: char) -> (r: bool)
    ensures
        r == is_white(c),
{
    ('\t' <= c && c <= '\r') || c == ' ' || c == '\u{85}' || c == '\u{a0}' || c == '\u{1680}' || (
    '\u{2000}' <= c && c <= '\u{200a}') || c == '\u{2028}' || c == '\u{2029}' || c == '\u{202f}'
        || c == '\u{205f}' || c == '\u{3000}'
}

/// `s` without its leading white space.
pub open spec fn trim_start(s: Seq<char>) -> Seq<char>
    decreases s.len(),
{
    if s.len() > 0 && is_white(s[0]) {
        trim_start(s.drop_first())
    } else {
        s
    }
}

/// `s` without its trailing white space.
pub open spec fn trim_end(s: Seq<char>) -> Seq<char>
    decreases s.len(),
{
    if s.len() > 0 && is_white(s.last()) {
        trim_end(s.drop_last())
    } else {
        s
    }
}

/// `s` without leading and trailing white space.
pub open spec fn trim(s: Seq<char>) -> Seq<char> {
    trim_end(trim_start(s))
}

/// The index of the first character of `s` that is not white space.
fn trim_start_index(s: &Vec<char>) -> (k: usize)
    ensures
        k <= s@.len(),
        trim_start(s@) == s@.subrange(k as int, s@.len() as int),
{
    let mut k: usize = 0;
    assert(s@.subrange(0, s@.len() as int) =~= s@);
    while k < s.len() && is_whitespace(s[k])
        invariant
            k <= s@.len(),
            trim_start(s@) == trim_start(s@.subrange(k as int, s@.len() as int)),
        decreases s@.len() - k,
    {
        assert(s@.subrange(k as int, s@.len() as int).drop_first() =~= s@.subrange(
            k + 1,
            s@.len() as int,
        ));
        k = k + 1;
    }
    k
}

/// The index just past the last character of `s[..end]` that is not white space.
fn trim_end_index(s: &Vec<char>, start: usize) -> (k: usize)
    requires
        start <= s@.len(),
    ensures
        start <= k <= s@.len(),
        trim_end(s@.subrange(start as int, s@.len() as int)) == s@.subrange(start as int, k as int),
{
    let mut k: usize = s.len();
    while k > start && is_whitespace(s[k - 1])
        invariant
            start <= k <= s@.len(),
            trim_end(s@.subrange(start as int, s@.len() as int)) == trim_end(
                s@.subrange(start as int, k as int),
            ),
        decreases k,
    {
        assert(s@.subrange(start as int, k as int).drop_last() =~= s@.subrange(
            start as int,
            k - 1,
        ));
        k = k - 1;
    }
    k
}

/// `s` without leading white space.
pub fn trim_start_chars(s: &Vec<char>) -> (r: Vec<char>)
    ensures
        r@ == trim_start(s@),
{
    let a = trim_start_index(s);
    slice_chars(s, a, s.len())
}

/// `s` without leading and trailing white space.
pub fn trim_chars(s: &Vec<char>) -> (r: Vec<char>)
    ensures
        r@ == trim(s@),
{
    let a = trim_start_index(s);
    let b = trim_end_index(s, a);
    slice_chars(s, a, b)
}

/// Whether `s` holds only white space.
pub fn is_blank(s: &Vec<char>) -> (r: bool)
    ensures
        r == (trim(s@).len() == 0),
{
    let t = trim_chars(s);
    t.len() == 0
}

/// `parts` with `sep` between each two consecutive parts.
pub open spec fn join_with(parts: Seq<Seq<char>>, sep: Seq<char>) -> Seq<char>
    decreases parts.len(),
{
    if parts.len() == 0 {
        seq![]
    } else if parts.len() == 1 {
        parts[0]
    } else {
        join_with(parts.drop_last(), sep) + sep + parts.last()
    }
}

/// Joins `parts`, putting `sep` between each two consecutive parts.
pub fn join_vecs(parts: &Vec<Vec<char>>, sep: &str) -> (r: Vec<char>)
    ensures
        r@ == join_with(parts@.map_values(|p: Vec<char>| p@), sep@),
{
    let ghost views = parts@.map_values(|p: Vec<char>| p@);
    let sepv = chars_of(sep);
    let mut r: Vec<char> = Vec::new();
    let mut i: usize = 0;
    while i < parts.len()
        invariant
            i <= parts@.len(),
            views == parts@.map_values(|p: Vec<char>| p@),
            sepv@ == sep@,
            r@ == join_with(views.take(i as int), sep@),
        decreases parts@.len() - i,
    {
        if i > 0 {
            extend_chars(&mut r, &sepv);
        }
        extend_chars(&mut r, &parts[i]);
        assert(views.take(i + 1).drop_last() =~= views.take(i as int));
        i = i + 1;
    }
    assert(views.take(i as int) =~= views);
    r
}

/// The maximal runs of characters of `s` that are not white space, in order.
pub open spec fn words(s: Seq<char>) -> Seq<Seq<char>>
    decreases s.len(),
{
    if s.len() == 0 {
        seq![]
    } else {
        let w = words(s.drop_last());
        let c = s.last();
        if is_white(c) {
            w
        } else if s.len() >= 2 && !is_white(s[s.len() - 2]) {
            w.update(w.len() - 1, w.last().push(c))
        } else {
            w.push(seq![c])
        }
    }
}

/// `s` with its white space runs collapsed to single spaces and with no white
/// space at either end.
pub open spec fn normalize(s: Seq<char>) -> Seq<char> {
    join_with(words(s), seq![' '])
}

/// Every word is non-empty, and a text that ends in a non-space character has
/// a word.
pub proof fn lemma_words_nonempty(s: Seq<char>)
    ensures
        forall|k: int| 0 <= k < words(s).len() ==> #[trigger] words(s)[k].len() > 0,
        s.len() > 0 && !is_white(s.last()) ==> words(s).len() > 0,
    decreases s.len(),
{
    if s.len() > 0 {
        lemma_words_nonempty(s.drop_last());
        let w = words(s.drop_last());
        if !is_white(s.last()) && s.len() >= 2 && !is_white(s[s.len() - 2]) {
            assert(s.drop_last().last() == s[s.len() - 2]);
        }
    }
}

/// Joining after extending the last part extends the joined text.
pub proof fn lemma_join_extend_last(w: Seq<Seq<char>>, sep: Seq<char>, c: char)
    requires
        w.len() > 0,
    ensures
        join_with(w.update(w.len() - 1, w.last().push(c)), sep) == join_with(w, sep).push(c),
{
    let w2 = w.update(w.len() - 1, w.last().push(c));
    if w.len() > 1 {
        assert(w2.drop_last() =~= w.drop_last());
    }
}

/// Joining after adding a part adds the separator and the part.
pub proof fn lemma_join_push(w: Seq<Seq<char>>, sep: Seq<char>, x: Seq<char>)
    ensures
        join_with(w.push(x), sep) == if w.len() == 0 {
            x
        } else {
            join_with(w, sep) + sep + x
        },
{
    assert(w.push(x).drop_last() =~= w);
}

/// A join of parts whose last part is non-empty is non-empty.
pub proof fn lemma_join_nonempty(w: Seq<Seq<char>>, sep: Seq<char>)
    requires
        w.len() > 0,
        w.last().len() > 0,
    ensures
        join_with(w, sep).len() > 0,
{
}

/// Collapses white space runs to single spaces and removes white space at both ends.
pub fn normalize_whitespace(s: &Vec<char>) -> (r: Vec<char>)
    ensures
        r@ == normalize(s@),
{
    let mut out: Vec<char> = Vec::new();
    let mut i: usize = 0;
    while i < s.len()
        invariant
            i <= s@.len(),
            out@ == join_with(words(s@.take(i as int)), seq![' ']),
            out@.len() == 0 <==> words(s@.take(i as int)).len() == 0,
        decreases s@.len() - i,
    {
        let c = s[i];
        let ghost pre = s@.take(i as int);
        let ghost next = s@.take(i + 1);
        assert(next.drop_last() =~= pre);
        assert(next.last() == c);
        proof {
            lemma_words_nonempty(pre);
            lemma_words_nonempty(next);
        }
        if !is_whitespace(c) {
            if i > 0 && !is_whitespace(s[i - 1]) {
                assert(next[next.len() - 2] == s@[i - 1]);
                assert(pre.last() == s@[i - 1]);
                proof {
                    lemma_join_extend_last(words(pre), seq![' '], c);
                }
                out.push(c);
            } else {
                proof {
                    if i > 0 {
                        assert(next[next.len() - 2] == s@[i - 1]);
                    }
                    lemma_join_push(words(pre), seq![' '], seq![c]);
                }
                if out.len() > 0 {
                    out.push(' ');
                }
                out.push(c);
                assert(out@ =~= join_with(words(next), seq![' ']));
            }
        }
        i = i + 1;
        proof {
            lemma_words_nonempty(next);
            if words(next).len() > 0 {
                lemma_join_nonempty(words(next), seq![' ']);
            }
        }
    }
    assert(s@.take(i as int) =~= s@);
    out
}

/// Whether `needle` occurs in `hay` starting at `at`.
pub open spec fn occurs_at(hay: Seq<char>, needle: Seq<char>, at: int) -> bool {
    0 <= at && at + needle.len() <= hay.len() && hay.subrange(at, at + needle.len()) == needle
}

/// Whether `needle` occurs in `hay`.
pub open spec fn contains(hay: Seq<char>, needle: Seq<char>) -> bool {
    exists|at: int| occurs_at(hay, needle, at)
}

/// Whether `s` begins with `prefix`.
pub open spec fn starts_with(s: Seq<char>, prefix: Seq<char>) -> bool {
    occurs_at(s, prefix, 0)
}

/// Whether `needle` occurs in `hay` at position `at`.
pub fn matches_at(hay: &Vec<char>, needle: &Vec<char>, at: usize) -> (r: bool)
    ensures
        r == occurs_at(hay@, needle@, at as int),
{
    if at > hay.len() || needle.len() > hay.len() - at {
        return false;
    }
    let mut k: usize = 0;
    while k < needle.len()
        invariant
            hay@.len() <= usize::MAX,
            at <= hay@.len(),
            at + needle@.len() <= hay@.len(),
            k <= needle@.len(),
            forall|j: int| 0 <= j < k ==> hay@[at + j] == needle@[j],
        decreases needle@.len() - k,
    {
        if hay[at + k] != needle[k] {
            assert(hay@.subrange(at as int, at + needle@.len())[k as int] != needle@[k as int]);
            return false;
        }
        k = k + 1;
    }
    assert(hay@.subrange(at as int, at + needle@.len()) =~= needle@);
    true
}

/// Whether `needle` occurs anywhere in `hay`.
pub fn contains_chars(hay: &Vec<char>, needle: &Vec<char>) -> (r: bool)
    ensures
        r == contains(hay@, needle@),
{
    if needle.len() == 0 {
        assert(hay@.subrange(0, 0) =~= needle@);
        assert(occurs_at(hay@, needle@, 0));
        return true;
    }
    if needle.len() > hay.len() {
        return false;
    }
    let last = hay.len() - needle.len();
    let mut at: usize = 0;
    while at <= last
        invariant
            hay@.len() <= usize::MAX,
            last + needle@.len() == hay@.len(),
            needle@.len() > 0,
            at <= last + 1,
            forall|j: int| 0 <= j < at ==> !occurs_at(hay@, needle@, j),
        decreases last + 1 - at,
    {
        if matches_at(hay, needle, at) {
            return true;
        }
        at = at + 1;
    }
    assert forall|j: int| !occurs_at(hay@, needle@, j) by {
        if 0 <= j && j + needle@.len() <= hay@.len() {
            assert(j < at);
        }
    }
    false
}

/// Whether `needle` occurs anywhere in `hay`.
pub fn contains_str(hay: &Vec<char>, needle: &str) -> (r: bool)
    ensures
        r == contains(hay@, needle@),
{
    let n = chars_of(needle);
    contains_chars(hay, &n)
}

/// Whether `s` begins with `prefix`.
pub fn starts_with_str(s: &Vec<char>, prefix: &str) -> (r: bool)
    ensures
        r == starts_with(s@, prefix@),
{
    let p = chars_of(prefix);
    matches_at(s, &p, 0)
}

/// Whether the texts `a` and `b` are equal.
pub fn str_eq(a: &str, b: &str) -> (r: bool)
    ensures
        r == (a@ == b@),
{
    let x = chars_of(a);
    let y = chars_of(b);
    if x.len() != y.len() {
        return false;
    }
    let r = matches_at(&x, &y, 0);
    assert(x@.subrange(0, y@.len() as int) =~= x@);
    r
}

/// What `str::to_uppercase` gives for a text: its Unicode uppercase mapping.
pub uninterp spec fn uppercase(s: Seq<char>) -> Seq<char>;

/// What `str::to_lowercase` gives for a text: its Unicode lowercase mapping.
pub uninterp spec fn lowercase(s: Seq<char>) -> Seq<char>;

/// Calls `str::to_uppercase`. The contract names the result only: the Unicode
/// uppercase mapping of `s`, which depends on `s` alone.
#[verifier::external_body]
pub(crate) fn to_uppercase(s: &str) -> (r: String)
    ensures
        r@ == uppercase(s@),
{
    s.to_uppercase()
}

/// Calls `str::to_lowercase`. The contract names the result only: the Unicode
/// lowercase mapping of `s`, which depends on `s` alone.
#[verifier::external_body]
pub(crate) fn to_lowercase(s: &str) -> (r: String)
    ensures
        r@ == lowercase(s@),
{
    s.to_lowercase()
}

/// The uppercase mapping of the characters `v`.
pub fn uppercase_chars(v: &Vec<char>) -> (r: Vec<char>)
    ensures
        r@ == uppercase(v@),
{
    let s = string_of(v);
    let u = to_uppercase(s.as_str());
    chars_of(u.as_str())
}

/// The lowercase mapping of the characters `v`.
pub fn lowercase_chars(v: &Vec<char>) -> (r: Vec<char>)
    ensures
        r@ == lowercase(v@),
{
    let s = string_of(v);
    let u = to_lowercase(s.as_str());
    chars_of(u.as_str())
}

/// The ASCII lowercase of `c`: letters `A`..`Z` become `a`..`z`, all else is kept.
pub open spec fn ascii_lower(c: char) -> char {
    if 'A' <= c && c <= 'Z' {
        (((c as u8) + 32) as u8) as char
    } else {
        c
    }
}

/// Whether `a` and `b` are equal when ASCII letters are compared without case.
pub open spec fn eq_ignore_ascii_case(a: Seq<char>, b: Seq<char>) -> bool {
    a.len() == b.len() && forall|i: int| 0 <= i < a.len() ==> ascii_lower(a[i]) == ascii_lower(b[i])
}

fn ascii_lower_char(c: char) -> (r: char)
    ensures
        r == ascii_lower(c),
{
    if 'A' <= c && c <= 'Z' {
        ((c as u8) + 32) as char
    } else {
        c
    }
}

/// Whether `a` and `b` are equal when ASCII letters are compared without case.
pub fn eq_ignore_ascii_case_chars(a: &Vec<char>, b: &Vec<char>) -> (r: bool)
    ensures
        r == eq_ignore_ascii_case(a@, b@),
{
    if a.len() != b.len() {
        return false;
    }
    let mut i: usize = 0;
    while i < a.len()
        invariant
            a@.len() == b@.len(),
            i <= a@.len(),
            forall|j: int| 0 <= j < i ==> ascii_lower(a@[j]) == ascii_lower(b@[j]),
        decreases a@.len() - i,
    {
        if ascii_lower_char(a[i]) != ascii_lower_char(b[i]) {
            return false;
        }
        i = i + 1;
    }
    true
}

/// Whether a quote at `c` opens or closes a string literal: the state inside
/// a literal after reading `c`.
pub open spec fn quote_state(c: char, quoted: bool) -> bool {
    if c == '\'' {
        !quoted
    } else {
        quoted
    }
}

/// Whether a string literal is open just before index `i` of `c`.
pub open spec fn quoted_before(c: Seq<char>, i: int) -> bool
    decreases i,
{
    if i <= 0 {
        false
    } else {
        quote_state(c[i - 1], quoted_before(c, i - 1))
    }
}

/// Whether `q` is one string literal: a quote at each end and none between.
pub open spec fn is_literal(q: Seq<char>) -> bool {
    &&& q.len() >= 2
    &&& q[0] == '\''
    &&& q[q.len() - 1] == '\''
    &&& forall|i: int| 0 < i < q.len() - 1 ==> #[trigger] q[i] != '\''
}

/// Whether a literal is open before `i` depends only on what precedes `i`.
pub proof fn lemma_quoted_before_prefix(s: Seq<char>, k: int, i: int)
    requires
        0 <= i <= k <= s.len(),
    ensures
        quoted_before(s.take(k), i) == quoted_before(s, i),
    decreases i,
{
    if i > 0 {
        lemma_quoted_before_prefix(s, k, i - 1);
        assert(s.take(k)[i - 1] == s[i - 1]);
    }
}

/// The literal state that collapsing white space keeps is that of the text
/// read so far, and that of the text written so far.
proof fn lemma_squash_quoted(s: Seq<char>)
    ensures
        squash_state(s).1 == quoted_before(s, s.len() as int),
        squash_state(s).1 == quoted_before(squash_state(s).0, squash_state(s).0.len() as int),
        squash_state(s).2 ==> squash_state(s).0.len() > 0,
    decreases s.len(),
{
    if s.len() > 0 {
        let p = s.drop_last();
        lemma_squash_quoted(p);
        lemma_quoted_before_prefix(s, s.len() - 1, s.len() - 1);
        assert(s.take(s.len() - 1) =~= p);
        let out = squash_state(p).0;
        let c = s.last();
        if squash_state(p).1 {
            lemma_quoted_before_prefix(out.push(c), out.len() as int, out.len() as int);
            assert(out.push(c).take(out.len() as int) =~= out);
        } else if !is_white(c) {
            let spaced = if squash_state(p).2 {
                out.push(' ')
            } else {
                out
            };
            if squash_state(p).2 {
                lemma_quoted_before_prefix(out.push(' '), out.len() as int, out.len() as int);
                assert(out.push(' ').take(out.len() as int) =~= out);
            }
            lemma_quoted_before_prefix(spaced.push(c), spaced.len() as int, spaced.len() as int);
            assert(spaced.push(c).take(spaced.len() as int) =~= spaced);
        }
    }
}

/// Collapsing white space only adds to what it wrote for a shorter text.
proof fn lemma_squash_grows(s: Seq<char>, t: Seq<char>)
    ensures
        squash_state(s).0.len() <= squash_state(s + t).0.len(),
        squash_state(s + t).0.subrange(0, squash_state(s).0.len() as int) == squash_state(s).0,
    decreases t.len(),
{
    if t.len() == 0 {
        assert(s + t =~= s);
        assert(squash_state(s).0.subrange(0, squash_state(s).0.len() as int) =~= squash_state(s).0);
    } else {
        lemma_squash_grows(s, t.drop_last());
        assert((s + t).drop_last() =~= s + t.drop_last());
        let x = squash_state(s).0;
        let y = squash_state(s + t.drop_last()).0;
        let z = squash_state(s + t).0;
        assert(z.len() >= y.len());
        assert(z.subrange(0, x.len() as int) =~= y.subrange(0, x.len() as int));
    }
}

/// A literal read where none is open is written out whole, after what was
/// written before it and a space when white space came before it.
proof fn lemma_squash_literal_prefix(a: Seq<char>, q: Seq<char>, k: int)
    requires
        is_literal(q),
        !squash_state(a).1,
        1 <= k <= q.len(),
    ensures
        ({
            let before = squash_state(a).0 + if squash_state(a).2 {
                seq![' ']
            } else {
                seq![]
            };
            squash_state(a + q.take(k)) == (before + q.take(k), k < q.len(), false)
        }),
    decreases k,
{
    let s = a + q.take(k);
    assert(s.drop_last() =~= a + q.take(k - 1));
    assert(s.last() == q[k - 1]);
    if k == 1 {
        assert(q.take(0) =~= Seq::<char>::empty());
        assert(a + q.take(0) =~= a);
        assert(!is_white('\''));
    } else {
        lemma_squash_literal_prefix(a, q, k - 1);
        assert(q.take(k) =~= q.take(k - 1).push(q[k - 1]));
    }
}

/// Collapsing white space keeps a string literal that stands where no other
/// literal is open as written.
pub proof fn law_squash_keeps_literals(a: Seq<char>, q: Seq<char>, b: Seq<char>)
    requires
        is_literal(q),
        !quoted_before(a, a.len() as int),
    ensures
        ({
            let pos = squash_state(a).0.len() + if squash_state(a).2 {
                1int
            } else {
                0int
            };
            &&& occurs_at(squash(a + q + b), q, pos)
            &&& !quoted_before(squash(a + q + b), pos)
        }),
{
    lemma_squash_quoted(a);
    lemma_squash_literal_prefix(a, q, q.len() as int);
    assert(q.take(q.len() as int) =~= q);
    lemma_squash_grows(a + q, b);
    let before = squash_state(a).0 + if squash_state(a).2 {
        seq![' ']
    } else {
        seq![]
    };
    let whole = squash(a + q + b);
    assert(a + q + b =~= (a + q) + b);
    let pre = whole.subrange(0, (before + q).len() as int);
    assert(pre == before + q);
    assert(whole.subrange(before.len() as int, (before.len() + q.len()) as int) =~= pre.subrange(
        before.len() as int,
        (before.len() + q.len()) as int,
    ));
    assert((before + q).subrange(before.len() as int, (before.len() + q.len()) as int) =~= q);
    assert(whole.take(before.len() as int) =~= pre.take(before.len() as int));
    assert(pre.take(before.len() as int) =~= before);
    lemma_quoted_before_prefix(whole, before.len() as int, before.len() as int);
    assert(whole.take(before.len() as int) =~= before);
    if squash_state(a).2 {
        let out = squash_state(a).0;
        lemma_quoted_before_prefix(out.push(' '), out.len() as int, out.len() as int);
        assert(out.push(' ').take(out.len() as int) =~= out);
        assert(before =~= out.push(' '));
    } else {
        assert(before =~= squash_state(a).0);
    }
}

/// The state after collapsing the white space of `s` outside its string
/// literals: the text so far, whether a literal (in single quotes) is open,
/// and whether white space waits to be written as one space.
pub open spec fn squash_state(s: Seq<char>) -> (Seq<char>, bool, bool)
    decreases s.len(),
{
    if s.len() == 0 {
        (seq![], false, false)
    } else {
        let (out, quoted, pending) = squash_state(s.drop_last());
        let c = s.last();
        if quoted {
            (out.push(c), c != '\'', false)
        } else if is_white(c) {
            (out, false, out.len() > 0)
        } else {
            let spaced = if pending {
                out.push(' ')
            } else {
                out
            };
            (spaced.push(c), c == '\'', false)
        }
    }
}

/// `s` with each run of white space outside string literals made one space
/// and the white space at both ends removed; the text of each literal is kept
/// as written.
pub open spec fn squash(s: Seq<char>) -> Seq<char> {
    squash_state(s).0
}

/// Collapses the white space of `s` outside its string literals.
pub fn squash_whitespace(s: &Vec<char>) -> (r: Vec<char>)
    ensures
        r@ == squash(s@),
{
    let mut out: Vec<char> = Vec::new();
    let mut quoted = false;
    let mut pending = false;
    let mut i: usize = 0;
    while i < s.len()
        invariant
            i <= s@.len(),
            (out@, quoted, pending) == squash_state(s@.take(i as int)),
        decreases s@.len() - i,
    {
        assert(s@.take(i + 1).drop_last() =~= s@.take(i as int));
        assert(s@.take(i + 1).last() == s@[i as int]);
        let c = s[i];
        if quoted {
            out.push(c);
            quoted = c != '\'';
        } else if is_whitespace(c) {
            pending = out.len() > 0;
        } else {
            if pending {
                out.push(' ');
            }
            out.push(c);
            quoted = c == '\'';
            pending = false;
        }
        i = i + 1;
    }
    assert(s@.take(i as int) =~= s@);
    out
}

/// Whether `pat` occurs in `s` at `at` when ASCII letters are compared
/// without case.
pub open spec fn matches_ignore_case_at(s: Seq<char>, at: int, pat: Seq<char>) -> bool {
    0 <= at && at + pat.len() <= s.len() && eq_ignore_ascii_case(
        s.subrange(at, at + pat.len()),
        pat,
    )
}

/// Whether `pat` occurs in `s` at `at`, ASCII letters compared without case.
pub fn matches_ignore_case(s: &Vec<char>, at: usize, pat: &Vec<char>) -> (r: bool)
    ensures
        r == matches_ignore_case_at(s@, at as int, pat@),
{
    if at > s.len() || pat.len() > s.len() - at {
        return false;
    }
    let mut k: usize = 0;
    while k < pat.len()
        invariant
            s@.len() <= usize::MAX,
            at + pat@.len() <= s@.len(),
            k <= pat@.len(),
            forall|j: int| 0 <= j < k ==> ascii_lower(s@[at + j]) == ascii_lower(pat@[j]),
        decreases pat@.len() - k,
    {
        if ascii_lower_char(s[at + k]) != ascii_lower_char(pat[k]) {
            assert(s@.subrange(at as int, at + pat@.len())[k as int] == s@[at + k]);
            return false;
        }
        k = k + 1;
    }
    assert forall|j: int| 0 <= j < pat@.len() implies ascii_lower(
        s@.subrange(at as int, at + pat@.len())[j],
    ) == ascii_lower(pat@[j]) by {
        assert(s@.subrange(at as int, at + pat@.len())[j] == s@[at + j]);
    }
    true
}

/// The number of bytes of the UTF-8 encoding of `c`.
pub open spec fn char_width(c: char) -> nat {
    if (c as u32) <= 0x7f {
        1
    } else if (c as u32) <= 0x7ff {
        2
    } else if (c as u32) <= 0xffff {
        3
    } else {
        4
    }
}

/// The number of bytes of the UTF-8 encoding of `s`.
pub open spec fn utf8_len(s: Seq<char>) -> nat
    decreases s.len(),
{
    if s.len() == 0 {
        0
    } else {
        utf8_len(s.drop_last()) + char_width(s.last())
    }
}

/// The encoding length agrees with vstd's UTF-8 encoding of the characters.
pub proof fn lemma_utf8_len_is_encoding_len(s: Seq<char>)
    ensures
        utf8_len(s) == vstd::utf8::encode_utf8(s).len(),
    decreases s.len(),
{
    broadcast use vstd::utf8::char_is_scalar;

    if s.len() > 0 {
        lemma_utf8_len_is_encoding_len(s.drop_first());
        lemma_utf8_len_first(s);
        lemma_char_width_encoding(s[0]);
    }
}

/// The width of a character is the length of its UTF-8 encoding.
pub proof fn lemma_char_width_encoding(c: char)
    ensures
        char_width(c) == vstd::utf8::encode_scalar(c as u32).len(),
{
    broadcast use vstd::utf8::char_is_scalar;

    let u = c as u32;
    assert(vstd::utf8::is_scalar(u));
}

/// Counting from the front gives the same length as counting from the back.
pub proof fn lemma_utf8_len_first(s: Seq<char>)
    requires
        s.len() > 0,
    ensures
        utf8_len(s) == char_width(s[0]) + utf8_len(s.drop_first()),
    decreases s.len(),
{
    if s.len() > 1 {
        lemma_utf8_len_first(s.drop_last());
        assert(s.drop_last().drop_first() =~= s.drop_first().drop_last());
        assert(s.drop_first().last() == s.last());
        assert(s.drop_last()[0] == s[0]);
        assert(utf8_len(s.drop_first()) == utf8_len(s.drop_first().drop_last()) + char_width(
            s.drop_first().last(),
        ));
    } else {
        assert(s.drop_first().len() == 0);
        assert(s.drop_last().len() == 0);
        assert(utf8_len(s.drop_first()) == 0);
        assert(utf8_len(s.drop_last()) == 0);
        assert(s.last() == s[0]);
    }
}

/// Each character takes one to four bytes.
pub proof fn lemma_utf8_len_bounds(s: Seq<char>)
    ensures
        s.len() <= utf8_len(s) <= 4 * s.len(),
    decreases s.len(),
{
    if s.len() > 0 {
        lemma_utf8_len_bounds(s.drop_last());
    }
}

/// The encoding of a longer prefix is longer.
pub proof fn lemma_utf8_len_prefix_increasing(s: Seq<char>, i: int, j: int)
    requires
        0 <= i < j <= s.len(),
    ensures
        utf8_len(s.take(i)) < utf8_len(s.take(j)),
    decreases j - i,
{
    assert(s.take(j).drop_last() =~= s.take(j - 1));
    if i < j - 1 {
        lemma_utf8_len_prefix_increasing(s, i, j - 1);
    }
}

/// The number of bytes of the UTF-8 encoding of `c`.
pub fn char_utf8_width(c: char) -> (w: u8)
    ensures
        w == char_width(c),
{
    let u = c as u32;
    if u <= 0x7f {
        1
    } else if u <= 0x7ff {
        2
    } else if u <= 0xffff {
        3
    } else {
        4
    }
}

/// The number of bytes of the UTF-8 encoding of the first `n` characters of `v`.
pub fn utf8_len_prefix(v: &Vec<char>, n: usize) -> (r: u128)
    requires
        n <= v@.len(),
    ensures
        r == utf8_len(v@.take(n as int)),
{
    let mut acc: u128 = 0;
    let mut i: usize = 0;
    while i < n
        invariant
            i <= n <= v@.len(),
            acc == utf8_len(v@.take(i as int)),
        decreases n - i,
    {
        proof {
            lemma_utf8_len_bounds(v@.take(i as int));
        }
        assert(v@.take(i + 1).drop_last() =~= v@.take(i as int));
        acc = acc + char_utf8_width(v[i]) as u128;
        i = i + 1;
    }
    acc
}

/// The number of bytes of the UTF-8 encoding of `v`.
pub fn utf8_len_chars(v: &Vec<char>) -> (r: u128)
    ensures
        r == utf8_len(v@),
{
    let r = utf8_len_prefix(v, v.len());
    assert(v@.take(v@.len() as int) =~= v@);
    r
}

/// The number of characters of `s` whose UTF-8 encoding is `b` bytes long, if
/// `b` falls on a character boundary of `s`.
pub open spec fn boundary_index(s: Seq<char>, b: int) -> Option<int> {
    if exists|j: int| 0 <= j <= s.len() && utf8_len(#[trigger] s.take(j)) == b {
        Some(choose|j: int| 0 <= j <= s.len() && utf8_len(#[trigger] s.take(j)) == b)
    } else {
        None
    }
}

/// Finds the character index at byte offset `b` of `v`, if that offset is a
/// character boundary.
pub fn boundary_index_of(v: &Vec<char>, b: u128) -> (r: Option<usize>)
    ensures
        r matches Some(j) ==> boundary_index(v@, b as int) == Some(j as int),
        r is None ==> boundary_index(v@, b as int) is None,
{
    let mut acc: u128 = 0;
    let mut j: usize = 0;
    loop
        invariant
            j <= v@.len(),
            acc == utf8_len(v@.take(j as int)),
            forall|k: int| 0 <= k < j ==> utf8_len(#[trigger] v@.take(k)) != b,
        decreases v@.len() - j,
    {
        if acc == b {
            proof {
                assert forall|k: int| 0 <= k <= v@.len() && utf8_len(#[trigger] v@.take(k)) == b implies k
                    == j by {
                    if k < j {
                    } else if k > j {
                        lemma_utf8_len_prefix_increasing(v@, j as int, k);
                    }
                }
            }
            return Some(j);
        }
        if acc > b || j >= v.len() {
            proof {
                assert forall|k: int| 0 <= k <= v@.len() implies utf8_len(#[trigger] v@.take(k)) != b by {
                    if k > j {
                        lemma_utf8_len_prefix_increasing(v@, j as int, k);
                    }
                }
            }
            return None;
        }
        proof {
            lemma_utf8_len_bounds(v@.take(j as int));
        }
        assert(v@.take(j + 1).drop_last() =~= v@.take(j as int));
        acc = acc + char_utf8_width(v[j]) as u128;
        j = j + 1;
    }
}

/// Whether `w` is a non-empty run of characters that are not white space.
pub open spec fn is_word(w: Seq<char>) -> bool {
    w.len() > 0 && forall|i: int| 0 <= i < w.len() ==> !is_white(#[trigger] w[i])
}

/// The words of a text hold no white space.
proof fn lemma_words_are_words(s: Seq<char>)
    ensures
        forall|k: int| 0 <= k < words(s).len() ==> is_word(#[trigger] words(s)[k]),
    decreases s.len(),
{
    if s.len() > 0 {
        lemma_words_are_words(s.drop_last());
        lemma_words_nonempty(s.drop_last());
        lemma_words_nonempty(s);
        let w = words(s.drop_last());
        let c = s.last();
        if !is_white(c) && s.len() >= 2 && !is_white(s[s.len() - 2]) {
            assert(s.drop_last().last() == s[s.len() - 2]);
            let nw = w.last().push(c);
            assert(is_word(w.last()));
            assert forall|i: int| 0 <= i < nw.len() implies !is_white(#[trigger] nw[i]) by {
                if i < w.last().len() {
                    assert(nw[i] == w.last()[i]);
                }
            }
            assert forall|k: int| 0 <= k < words(s).len() implies is_word(#[trigger] words(s)[k]) by {
                if k < w.len() - 1 {
                    assert(words(s)[k] == w[k]);
                }
            }
        } else if !is_white(c) {
            assert forall|k: int| 0 <= k < words(s).len() implies is_word(#[trigger] words(s)[k]) by {
                if k < w.len() {
                    assert(words(s)[k] == w[k]);
                } else {
                    assert(words(s)[k] =~= seq![c]);
                }
            }
        }
    }
}

/// A word read on its own is one word.
proof fn lemma_words_of_word(w: Seq<char>)
    requires
        is_word(w),
    ensures
        words(w) == seq![w],
    decreases w.len(),
{
    if w.len() == 1 {
        assert(w.drop_last().len() == 0);
        assert(words(w.drop_last()) =~= seq![]);
        assert(seq![w.last()] =~= w);
        assert(words(w) =~= seq![w]);
    } else {
        let p = w.drop_last();
        assert(is_word(p)) by {
            assert forall|i: int| 0 <= i < p.len() implies !is_white(#[trigger] p[i]) by {
                assert(p[i] == w[i]);
            }
        }
        lemma_words_of_word(p);
        assert(w[w.len() - 2] == p.last());
        assert(p.push(w.last()) =~= w);
        assert(words(w) =~= seq![w]);
    }
}

/// Appending a space and a word to a text appends that word to its words.
proof fn lemma_words_append_word(x: Seq<char>, w: Seq<char>)
    requires
        is_word(w),
    ensures
        words(x + seq![' '] + w) == words(x).push(w),
    decreases w.len(),
{
    let xs = x + seq![' '];
    assert(xs.drop_last() =~= x);
    assert(words(xs) == words(x));
    if w.len() == 1 {
        let s = xs + w;
        assert(s.drop_last() =~= xs);
        assert(s[s.len() - 2] == ' ');
        assert(seq![s.last()] =~= w);
    } else {
        let p = w.drop_last();
        assert(is_word(p)) by {
            assert forall|i: int| 0 <= i < p.len() implies !is_white(#[trigger] p[i]) by {
                assert(p[i] == w[i]);
            }
        }
        lemma_words_append_word(x, p);
        let s = xs + w;
        assert(s.drop_last() =~= xs + p);
        assert(s[s.len() - 2] == w[w.len() - 2]);
        assert(s.last() == w.last());
        assert(p.push(w.last()) =~= w);
        assert(words(s) =~= words(x).push(w));
    }
}

/// Reading back the words of words joined by spaces gives those words.
pub proof fn lemma_words_of_joined(ws: Seq<Seq<char>>)
    requires
        forall|k: int| 0 <= k < ws.len() ==> is_word(#[trigger] ws[k]),
    ensures
        words(join_with(ws, seq![' '])) == ws,
    decreases ws.len(),
{
    if ws.len() == 0 {
        assert(words(seq![]) =~= ws);
    } else if ws.len() == 1 {
        lemma_words_of_word(ws[0]);
        assert(seq![ws[0]] =~= ws);
    } else {
        let front = ws.drop_last();
        lemma_words_of_joined(front);
        lemma_words_append_word(join_with(front, seq![' ']), ws.last());
        assert(front.push(ws.last()) =~= ws);
    }
}


/// Whether `x` is words separated by single spaces: its only white space is
/// the space character, it neither begins nor ends with a space, and no two
/// spaces stand side by side.
pub open spec fn spaced_words(x: Seq<char>) -> bool {
    &&& forall|i: int| 0 <= i < x.len() ==> (#[trigger] x[i] == ' ' || !is_white(x[i]))
    &&& x.len() > 0 ==> (x[0] != ' ' && x[x.len() - 1] != ' ')
    &&& forall|i: int| 0 <= i < x.len() - 1 ==> !(#[trigger] x[i] == ' ' && x[i + 1] == ' ')
}

/// Words joined by single spaces are words separated by single spaces.
proof fn lemma_join_spaced(ws: Seq<Seq<char>>)
    requires
        forall|k: int| 0 <= k < ws.len() ==> is_word(#[trigger] ws[k]),
    ensures
        spaced_words(join_with(ws, seq![' '])),
    decreases ws.len(),
{
    if ws.len() == 1 {
        assert(is_word(ws[0]));
    } else if ws.len() >= 2 {
        let front = ws.drop_last();
        assert forall|k: int| 0 <= k < front.len() implies is_word(#[trigger] front[k]) by {
            assert(front[k] == ws[k]);
        }
        lemma_join_spaced(front);
        let a = join_with(front, seq![' ']);
        let w = ws.last();
        assert(is_word(w));
        assert(is_word(front.last()));
        lemma_join_nonempty(front, seq![' ']);
        let x = join_with(ws, seq![' ']);
        assert(x == a + seq![' '] + w);
        assert forall|i: int| 0 <= i < x.len() implies (#[trigger] x[i] == ' ' || !is_white(x[i])) by {
            if i < a.len() {
                assert(x[i] == a[i]);
            } else if i > a.len() {
                assert(x[i] == w[i - a.len() - 1]);
            }
        }
        assert(x[0] == a[0]);
        assert(x[x.len() - 1] == w[w.len() - 1]);
        assert forall|i: int| 0 <= i < x.len() - 1 implies !(#[trigger] x[i] == ' ' && x[i + 1] == ' ') by {
            if i + 1 < a.len() {
                assert(x[i] == a[i] && x[i + 1] == a[i + 1]);
            } else if i + 1 == a.len() {
                assert(x[i] == a[a.len() - 1]);
            } else if i == a.len() {
                assert(x[i + 1] == w[0]);
            } else {
                assert(x[i + 1] == w[i - a.len()]);
            }
        }
    }
}

/// Collapsing white space keeps the words of the text, in order, and leaves
/// them separated by single spaces, with no space at either end; doing it
/// again changes nothing.
pub proof fn law_normalize_whitespace(s: Seq<char>)
    ensures
        words(normalize(s)) == words(s),
        spaced_words(normalize(s)),
        normalize(normalize(s)) == normalize(s),
{
    lemma_words_are_words(s);
    lemma_words_of_joined(words(s));
    lemma_join_spaced(words(s));
}

} // verus!

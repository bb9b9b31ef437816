//! HTML escaping of literal text, and its inverse.
use vstd::prelude::*;

verus! {

pub open spec fn amp_entity() -> Seq<char> {
    seq!['&', 'a', 'm', 'p', ';']
}

pub open spec fn lt_entity() -> Seq<char> {
    seq!['&', 'l', 't', ';']
}

pub open spec fn gt_entity() -> Seq<char> {
    seq!['&', 'g', 't', ';']
}

pub open spec fn quot_entity() -> Seq<char> {
    seq!['&', 'q', 'u', 'o', 't', ';']
}

/// The entity that stands for `c` in escaped text, or `c` itself.
pub open spec fn escape_char(c: char) -> Seq<char> {
    if c == '&' {
        amp_entity()
    } else if c == '<' {
        lt_entity()
    } else if c == '>' {
        gt_entity()
    } else if c == '"' {
        quot_entity()
    } else {
        seq![c]
    }
}

/// `s` with each of `&`, `<`, `>` and `"` replaced by its named entity.
pub open spec fn escape_html(s: Seq<char>) -> Seq<char>
    decreases s.len(),
{
    if s.len() == 0 {
        seq![]
    } else {
        escape_char(s[0]) + escape_html(s.drop_first())
    }
}

/// Relies on html_escape::encode_double_quoted_attribute: it replaces each
/// `&`, `<`, `>` and `"` by `&amp;`, `&lt;`, `&gt;` and `&quot;` and keeps
/// every other character.
#[verifier::external_body]
pub(crate) fn escape_text(s: &str) -> (r: String)
    ensures
        r@ == escape_html(s@),
{
    html_escape::encode_double_quoted_attribute(s).into_owned()
}

/// `t` begins with `p`.
pub open spec fn starts_with(t: Seq<char>, p: Seq<char>) -> bool {
    p.len() <= t.len() && t.subrange(0, p.len() as int) == p
}

/// `t` begins with one of the four entities that escaping produces.
pub open spec fn starts_with_entity(t: Seq<char>) -> bool {
    starts_with(t, amp_entity()) || starts_with(t, lt_entity()) || starts_with(t, gt_entity())
        || starts_with(t, quot_entity())
}

/// `t` with each of `&amp;`, `&lt;`, `&gt;` and `&quot;` replaced, left to
/// right, by the character it stands for.
pub open spec fn unescape_html(t: Seq<char>) -> Seq<char>
    decreases t.len(),
{
    if t.len() == 0 {
        seq![]
    } else if starts_with(t, amp_entity()) {
        seq!['&'] + unescape_html(t.subrange(5, t.len() as int))
    } else if starts_with(t, lt_entity()) {
        seq!['<'] + unescape_html(t.subrange(4, t.len() as int))
    } else if starts_with(t, gt_entity()) {
        seq!['>'] + unescape_html(t.subrange(4, t.len() as int))
    } else if starts_with(t, quot_entity()) {
        seq!['"'] + unescape_html(t.subrange(6, t.len() as int))
    } else {
        seq![t[0]] + unescape_html(t.drop_first())
    }
}

/// Escaping distributes over concatenation.
pub proof fn lemma_escape_concat(a: Seq<char>, b: Seq<char>)
    ensures
        escape_html(a + b) == escape_html(a) + escape_html(b),
    decreases a.len(),
{
    if a.len() == 0 {
        assert(a + b =~= b);
    } else {
        assert((a + b).drop_first() =~= a.drop_first() + b);
        lemma_escape_concat(a.drop_first(), b);
        assert(escape_html(a + b) =~= escape_html(a) + escape_html(b));
    }
}

proof fn lemma_starts_with_at(t: Seq<char>, p: Seq<char>, i: int)
    requires
        starts_with(t, p),
        0 <= i < p.len(),
    ensures
        t[i] == p[i],
{
    assert(t.subrange(0, p.len() as int)[i] == t[i]);
}

/// Unescaping undoes escaping.
pub proof fn lemma_unescape_escape(s: Seq<char>)
    ensures
        unescape_html(escape_html(s)) == s,
    decreases s.len(),
{
    if s.len() > 0 {
        let c = s[0];
        let rest = escape_html(s.drop_first());
        let t = escape_html(s);
        let e = escape_char(c);
        assert(t == e + rest);
        lemma_unescape_escape(s.drop_first());
        assert(t[0] == e[0]);
        if c == '&' || c == '<' || c == '>' || c == '"' {
            assert(t.subrange(e.len() as int, t.len() as int) =~= rest);
            assert(t.subrange(0, e.len() as int) =~= e);
            assert(t[1] == e[1]);
            if c != '&' && starts_with(t, amp_entity()) {
                lemma_starts_with_at(t, amp_entity(), 1);
            }
            if c != '<' && starts_with(t, lt_entity()) {
                lemma_starts_with_at(t, lt_entity(), 1);
            }
            if c != '>' && starts_with(t, gt_entity()) {
                lemma_starts_with_at(t, gt_entity(), 1);
            }
        } else {
            if starts_with(t, amp_entity()) {
                lemma_starts_with_at(t, amp_entity(), 0);
            }
            if starts_with(t, lt_entity()) {
                lemma_starts_with_at(t, lt_entity(), 0);
            }
            if starts_with(t, gt_entity()) {
                lemma_starts_with_at(t, gt_entity(), 0);
            }
            if starts_with(t, quot_entity()) {
                lemma_starts_with_at(t, quot_entity(), 0);
            }
            assert(t.drop_first() =~= rest);
        }
        assert(seq![c] + s.drop_first() =~= s);
    }
}

/// Position `k` of `t` is not `<`, `>` or `"`, and an `&` there begins an
/// entity.
pub open spec fn safe_at(t: Seq<char>, k: int) -> bool {
    &&& t[k] != '<'
    &&& t[k] != '>'
    &&& t[k] != '"'
    &&& t[k] == '&' ==> starts_with_entity(t.subrange(k, t.len() as int))
}

/// Escaped text holds no `<`, `>` or `"`, and each `&` in it begins an
/// entity.
pub proof fn lemma_escape_safe(s: Seq<char>)
    ensures
        forall|k: int| 0 <= k < escape_html(s).len() ==> #[trigger] safe_at(escape_html(s), k),
    decreases s.len(),
{
    if s.len() > 0 {
        let c = s[0];
        let rest = escape_html(s.drop_first());
        let t = escape_html(s);
        let e = escape_char(c);
        lemma_escape_safe(s.drop_first());
        assert forall|k: int| 0 <= k < t.len() implies #[trigger] safe_at(t, k) by {
            if k < e.len() {
                if k == 0 && (c == '&' || c == '<' || c == '>' || c == '"') {
                    assert(t.subrange(0, t.len() as int).subrange(0, e.len() as int) =~= e);
                }
            } else {
                let j = k - e.len();
                assert(t[k] == rest[j]);
                assert(t.subrange(k, t.len() as int) =~= rest.subrange(j, rest.len() as int));
                assert(safe_at(rest, j));
            }
        }
    }
}

} // verus!

//! Properties of the markup that hold for every event stream.
use vstd::prelude::*;
use vstd::utf8::*;
use crate::escape::{escape_html, lemma_escape_concat, lemma_escape_safe, lemma_unescape_escape, safe_at, unescape_html};
use crate::markup::{
    class_list, dots_to_separators, open_tag, span_close,
    event_check, event_markup, markup_of, root_close, root_open, run_events, span_ok, span_text,
    HighlightEvent, RenderError,
};

verus! {

broadcast use vstd::utf8::group_utf8_lib;

/// How an event changes the number of open regions.
pub open spec fn nesting_change(e: HighlightEvent) -> int {
    match e {
        HighlightEvent::Source { .. } => 0,
        HighlightEvent::HighlightStart(_) => 1,
        HighlightEvent::HighlightEnd => -1,
    }
}

/// The number of regions that `events` open, less the number they close.
pub open spec fn nesting(events: Seq<HighlightEvent>) -> int
    decreases events.len(),
{
    if events.len() == 0 {
        0
    } else {
        nesting(events.drop_last()) + nesting_change(events.last())
    }
}

/// A source span lies on valid UTF-8, and a capture index is in the table.
pub open spec fn event_valid(bytes: Seq<u8>, names: Seq<Seq<char>>, e: HighlightEvent) -> bool {
    match e {
        HighlightEvent::Source { start, end } => span_ok(bytes, start as int, end as int),
        HighlightEvent::HighlightStart(n) => n < names.len(),
        HighlightEvent::HighlightEnd => true,
    }
}

/// Every event is valid and no prefix closes more regions than it opens.
pub open spec fn prefix_valid(bytes: Seq<u8>, names: Seq<Seq<char>>, events: Seq<HighlightEvent>) -> bool {
    &&& forall|i: int| 0 <= i < events.len() ==> #[trigger] event_valid(bytes, names, events[i])
    &&& forall|k: int| 0 <= k <= events.len() ==> #[trigger] nesting(events.subrange(0, k)) >= 0
}

/// A well-formed stream: valid events, properly nested, every region closed.
pub open spec fn well_formed_stream(bytes: Seq<u8>, names: Seq<Seq<char>>, events: Seq<HighlightEvent>) -> bool {
    prefix_valid(bytes, names, events) && nesting(events) == 0
}

/// The markup of each event, concatenated in order.
pub open spec fn events_markup(bytes: Seq<u8>, names: Seq<Seq<char>>, events: Seq<HighlightEvent>) -> Seq<char>
    decreases events.len(),
{
    if events.len() == 0 {
        seq![]
    } else {
        events_markup(bytes, names, events.drop_last()) + event_markup(bytes, names, events.last())
    }
}

/// The decoded text of the source spans, concatenated in order.
pub open spec fn source_text(bytes: Seq<u8>, events: Seq<HighlightEvent>) -> Seq<char>
    decreases events.len(),
{
    if events.len() == 0 {
        seq![]
    } else {
        source_text(bytes, events.drop_last()) + match events.last() {
            HighlightEvent::Source { start, end } => span_text(bytes, start as int, end as int),
            _ => seq![],
        }
    }
}

/// The literal segments of the markup, concatenated in order.
pub open spec fn literal_markup(bytes: Seq<u8>, events: Seq<HighlightEvent>) -> Seq<char>
    decreases events.len(),
{
    if events.len() == 0 {
        seq![]
    } else {
        literal_markup(bytes, events.drop_last()) + match events.last() {
            HighlightEvent::Source { start, end } => escape_html(span_text(bytes, start as int, end as int)),
            _ => seq![],
        }
    }
}

/// Where the source spans end when each begins where the one before ended,
/// the first at byte 0; `None` when they leave a gap or overlap.
pub open spec fn sources_reach(events: Seq<HighlightEvent>) -> Option<int>
    decreases events.len(),
{
    if events.len() == 0 {
        Some(0)
    } else {
        match sources_reach(events.drop_last()) {
            None => None,
            Some(p) => match events.last() {
                HighlightEvent::Source { start, end } => if start == p { Some(end as int) } else { None },
                _ => Some(p),
            },
        }
    }
}

proof fn lemma_nesting_bound(events: Seq<HighlightEvent>)
    ensures
        nesting(events) <= events.len(),
    decreases events.len(),
{
    if events.len() > 0 {
        lemma_nesting_bound(events.drop_last());
    }
}

proof fn lemma_run_events(bytes: Seq<u8>, names: Seq<Seq<char>>, events: Seq<HighlightEvent>)
    requires
        events.len() <= usize::MAX,
    ensures
        run_events(bytes, names, events) is Ok <==> prefix_valid(bytes, names, events),
        prefix_valid(bytes, names, events) ==> run_events(bytes, names, events) == Ok::<(Seq<char>, nat), RenderError>(
            (root_open() + events_markup(bytes, names, events), nesting(events) as nat),
        ),
    decreases events.len(),
{
    if events.len() == 0 {
        assert(events.subrange(0, 0) =~= events);
        assert(root_open() + events_markup(bytes, names, events) =~= root_open());
    } else {
        let pre = events.drop_last();
        let e = events.last();
        let n = events.len() as int;
        lemma_run_events(bytes, names, pre);
        lemma_nesting_bound(pre);
        assert(events.subrange(0, n) =~= events);
        assert forall|k: int| 0 <= k <= pre.len() implies #[trigger] pre.subrange(0, k) == events.subrange(0, k) by {
            assert(pre.subrange(0, k) =~= events.subrange(0, k));
        }
        assert forall|i: int| 0 <= i < pre.len() implies #[trigger] pre[i] == events[i] by {}
        if prefix_valid(bytes, names, events) {
            assert(event_valid(bytes, names, events[n - 1]));
            assert(nesting(events.subrange(0, n)) >= 0);
            assert forall|k: int| 0 <= k <= pre.len() implies #[trigger] nesting(pre.subrange(0, k)) >= 0 by {
                assert(nesting(events.subrange(0, k)) >= 0);
            }
            assert forall|i: int| 0 <= i < pre.len() implies #[trigger] event_valid(bytes, names, pre[i]) by {
                assert(event_valid(bytes, names, events[i]));
            }
            assert(prefix_valid(bytes, names, pre));
            lemma_nesting_nonnegative(bytes, names, pre);
            assert(event_check(bytes, names, nesting(pre) as nat, e) is None);
            assert(root_open() + events_markup(bytes, names, events) =~= root_open() + events_markup(bytes, names, pre)
                + event_markup(bytes, names, e));
        } else if prefix_valid(bytes, names, pre) {
            lemma_nesting_nonnegative(bytes, names, pre);
            if event_valid(bytes, names, e) && nesting(events) >= 0 {
                assert forall|i: int| 0 <= i < events.len() implies #[trigger] event_valid(bytes, names, events[i]) by {
                    if i < pre.len() {
                        assert(event_valid(bytes, names, pre[i]));
                    }
                }
                assert forall|k: int| 0 <= k <= events.len() implies #[trigger] nesting(events.subrange(0, k)) >= 0 by {
                    if k < events.len() {
                        assert(nesting(pre.subrange(0, k)) >= 0);
                    }
                }
                assert(prefix_valid(bytes, names, events));
            }
            assert(nesting(events) == nesting(pre) + nesting_change(e));
            assert(event_check(bytes, names, nesting(pre) as nat, e) is Some);
        }
    }
}

/// Well-formed nesting: the markup exists exactly for well-formed streams
/// (each source span on valid UTF-8, each capture in the table, no prefix
/// closing more regions than it opened, every region closed at the end),
/// and it is then the root container around the markup of each event in
/// order, so its opening and closing region tags balance as the events do.
pub proof fn lemma_markup_well_nested(bytes: Seq<u8>, names: Seq<Seq<char>>, events: Seq<HighlightEvent>)
    requires
        events.len() <= usize::MAX,
    ensures
        markup_of(bytes, names, events) is Ok <==> well_formed_stream(bytes, names, events),
        well_formed_stream(bytes, names, events) ==> markup_of(bytes, names, events) == Ok::<Seq<char>, RenderError>(
            root_open() + events_markup(bytes, names, events) + root_close(),
        ),
{
    lemma_run_events(bytes, names, events);
    if prefix_valid(bytes, names, events) {
        lemma_nesting_nonnegative(bytes, names, events);
    }
}

proof fn lemma_nesting_nonnegative(bytes: Seq<u8>, names: Seq<Seq<char>>, events: Seq<HighlightEvent>)
    requires
        prefix_valid(bytes, names, events),
    ensures
        nesting(events) >= 0,
{
    assert(events.subrange(0, events.len() as int) =~= events);
    assert(nesting(events.subrange(0, events.len() as int)) >= 0);
}

proof fn lemma_encode_concat(a: Seq<char>, b: Seq<char>)
    ensures
        encode_utf8(a + b) == encode_utf8(a) + encode_utf8(b),
    decreases a.len(),
{
    if a.len() == 0 {
        assert(a + b =~= b);
        assert(encode_utf8(a) + encode_utf8(b) =~= encode_utf8(b));
    } else {
        assert((a + b).drop_first() =~= a.drop_first() + b);
        lemma_encode_concat(a.drop_first(), b);
        assert(encode_utf8(a + b) =~= encode_utf8(a) + encode_utf8(b));
    }
}

proof fn lemma_decode_concat(a: Seq<u8>, b: Seq<u8>)
    requires
        valid_utf8(a),
        valid_utf8(b),
    ensures
        valid_utf8(a + b),
        decode_utf8(a + b) == decode_utf8(a) + decode_utf8(b),
{
    lemma_encode_concat(decode_utf8(a), decode_utf8(b));
}

proof fn lemma_sources_prefix(bytes: Seq<u8>, names: Seq<Seq<char>>, events: Seq<HighlightEvent>, p: int)
    requires
        forall|i: int| 0 <= i < events.len() ==> #[trigger] event_valid(bytes, names, events[i]),
        sources_reach(events) == Some(p),
    ensures
        0 <= p <= bytes.len(),
        valid_utf8(bytes.subrange(0, p)),
        source_text(bytes, events) == decode_utf8(bytes.subrange(0, p)),
    decreases events.len(),
{
    if events.len() == 0 {
        assert(bytes.subrange(0, 0) =~= Seq::<u8>::empty());
    } else {
        let pre = events.drop_last();
        let e = events.last();
        assert forall|i: int| 0 <= i < pre.len() implies #[trigger] event_valid(bytes, names, pre[i]) by {
            assert(event_valid(bytes, names, events[i]));
        }
        assert(event_valid(bytes, names, events[events.len() - 1]));
        let q = sources_reach(pre)->0;
        lemma_sources_prefix(bytes, names, pre, q);
        match e {
            HighlightEvent::Source { start, end } => {
                assert(bytes.subrange(0, p) =~= bytes.subrange(0, q) + bytes.subrange(q, p));
                lemma_decode_concat(bytes.subrange(0, q), bytes.subrange(q, p));
            },
            _ => {
                assert(source_text(bytes, events) =~= source_text(bytes, pre));
            },
        }
    }
}

/// The literal segments of the markup are the escaped text of the source
/// spans, in order.
pub proof fn lemma_literals_escape_sources(bytes: Seq<u8>, events: Seq<HighlightEvent>)
    ensures
        literal_markup(bytes, events) == escape_html(source_text(bytes, events)),
    decreases events.len(),
{
    if events.len() > 0 {
        let pre = events.drop_last();
        lemma_literals_escape_sources(bytes, pre);
        match events.last() {
            HighlightEvent::Source { start, end } => {
                lemma_escape_concat(source_text(bytes, pre), span_text(bytes, start as int, end as int));
            },
            _ => {
                assert(source_text(bytes, events) =~= source_text(bytes, pre));
                assert(literal_markup(bytes, events) =~= literal_markup(bytes, pre));
            },
        }
    }
}

/// Content preservation: unescaping the literal segments of the markup
/// gives the text of the source spans in order; when those spans cover the
/// text end to end and the markup exists, that is the whole text.
pub proof fn lemma_content_preserved(text: Seq<char>, names: Seq<Seq<char>>, events: Seq<HighlightEvent>)
    requires
        events.len() <= usize::MAX,
    ensures
        unescape_html(literal_markup(encode_utf8(text), events)) == source_text(encode_utf8(text), events),
        markup_of(encode_utf8(text), names, events) is Ok && sources_reach(events) == Some(
            encode_utf8(text).len() as int,
        ) ==> unescape_html(literal_markup(encode_utf8(text), events)) == text,
{
    let bytes = encode_utf8(text);
    lemma_literals_escape_sources(bytes, events);
    lemma_unescape_escape(source_text(bytes, events));
    if markup_of(bytes, names, events) is Ok && sources_reach(events) == Some(bytes.len() as int) {
        lemma_markup_well_nested(bytes, names, events);
        lemma_sources_prefix(bytes, names, events, bytes.len() as int);
        assert(bytes.subrange(0, bytes.len() as int) =~= bytes);
    }
}

/// Escaping safety: the literal segments of the markup hold no `<`, `>` or
/// `"`, and each `&` in them begins an entity.
pub proof fn lemma_literals_safe(bytes: Seq<u8>, events: Seq<HighlightEvent>)
    ensures
        forall|k: int| 0 <= k < literal_markup(bytes, events).len() ==> #[trigger] safe_at(
            literal_markup(bytes, events),
            k,
        ),
{
    lemma_literals_escape_sources(bytes, events);
    lemma_escape_safe(source_text(bytes, events));
}

/// The number of opening region tags in `t`: the places where `<s` begins.
pub open spec fn open_tag_count(t: Seq<char>) -> nat
    decreases t.len(),
{
    if t.len() == 0 {
        0
    } else {
        (if t.len() >= 2 && t[0] == '<' && t[1] == 's' { 1nat } else { 0nat }) + open_tag_count(t.drop_first())
    }
}

/// The number of closing region tags in `t`: the places where `</s` begins.
pub open spec fn close_tag_count(t: Seq<char>) -> nat
    decreases t.len(),
{
    if t.len() == 0 {
        0
    } else {
        (if t.len() >= 3 && t[0] == '<' && t[1] == '/' && t[2] == 's' { 1nat } else { 0nat })
            + close_tag_count(t.drop_first())
    }
}

/// The number of `HighlightStart` events.
pub open spec fn start_count(events: Seq<HighlightEvent>) -> nat
    decreases events.len(),
{
    if events.len() == 0 {
        0
    } else {
        start_count(events.drop_last()) + (if events.last() is HighlightStart { 1nat } else { 0nat })
    }
}

/// `t` holds no `<`.
pub open spec fn no_lt(t: Seq<char>) -> bool {
    forall|i: int| 0 <= i < t.len() ==> t[i] != '<'
}

/// Neither of the last two characters of `t` is `<`.
pub open spec fn tail_safe(t: Seq<char>) -> bool {
    forall|i: int| 0 <= i < t.len() && t.len() - 2 <= i ==> t[i] != '<'
}

proof fn lemma_counts_concat(a: Seq<char>, b: Seq<char>)
    requires
        tail_safe(a),
    ensures
        open_tag_count(a + b) == open_tag_count(a) + open_tag_count(b),
        close_tag_count(a + b) == close_tag_count(a) + close_tag_count(b),
    decreases a.len(),
{
    if a.len() == 0 {
        assert(a + b =~= b);
    } else {
        assert((a + b).drop_first() =~= a.drop_first() + b);
        assert((a + b)[0] == a[0]);
        if a.len() >= 2 {
            assert((a + b)[1] == a[1]);
        }
        if a.len() >= 3 {
            assert((a + b)[2] == a[2]);
        }
        if a.len() <= 2 {
            assert(a[0] != '<');
        }
        lemma_counts_concat(a.drop_first(), b);
    }
}

proof fn lemma_counts_no_lt(t: Seq<char>)
    requires
        no_lt(t),
    ensures
        open_tag_count(t) == 0,
        close_tag_count(t) == 0,
    decreases t.len(),
{
    if t.len() > 0 {
        assert(t[0] != '<');
        lemma_counts_no_lt(t.drop_first());
    }
}

proof fn lemma_separators_no_lt(s: Seq<char>)
    requires
        no_lt(s),
    ensures
        no_lt(dots_to_separators(s)),
    decreases s.len(),
{
    if s.len() > 0 {
        lemma_separators_no_lt(s.drop_last());
        assert(s[s.len() - 1] != '<');
    }
}

proof fn lemma_open_tag_counts(name: Seq<char>)
    requires
        no_lt(name),
    ensures
        open_tag_count(open_tag(name)) == 1,
        close_tag_count(open_tag(name)) == 0,
        tail_safe(open_tag(name)),
{
    reveal_strlit("<span class=\"");
    reveal_strlit("\">");
    lemma_separators_no_lt(name);
    let head = seq!['<', 's', 'p'];
    let rest = seq!['a', 'n', ' ', 'c', 'l', 'a', 's', 's', '=', '"'] + class_list(name) + seq!['"', '>'];
    assert(open_tag(name) =~= head + rest);
    assert(no_lt(rest));
    lemma_counts_no_lt(rest);
    assert(head.drop_first() =~= seq!['s', 'p']);
    assert(no_lt(seq!['s', 'p']));
    lemma_counts_no_lt(seq!['s', 'p']);
    lemma_counts_concat(head, rest);
}

proof fn lemma_close_tag_counts()
    ensures
        open_tag_count(span_close()) == 0,
        close_tag_count(span_close()) == 1,
        tail_safe(span_close()),
{
    reveal_strlit("</span>");
    let head = seq!['<', '/', 's'];
    let rest = seq!['p', 'a', 'n', '>'];
    assert(span_close() =~= head + rest);
    assert(no_lt(rest));
    lemma_counts_no_lt(rest);
    assert(head.drop_first() =~= seq!['/', 's']);
    assert(no_lt(seq!['/', 's']));
    lemma_counts_no_lt(seq!['/', 's']);
    lemma_counts_concat(head, rest);
}

proof fn lemma_root_counts()
    ensures
        open_tag_count(root_open()) == 0,
        close_tag_count(root_open()) == 0,
        tail_safe(root_open()),
        open_tag_count(root_close()) == 0,
        close_tag_count(root_close()) == 0,
{
    reveal_strlit("<code class=\"tree-sitter-code\">");
    reveal_strlit("</code>");
    let r1 = root_open().drop_first();
    assert(no_lt(r1));
    lemma_counts_no_lt(r1);
    let r2 = root_close().drop_first();
    assert(root_close() =~= seq!['<', '/', 'c', 'o', 'd', 'e', '>']);
    assert(no_lt(r2));
    lemma_counts_no_lt(r2);
}

proof fn lemma_events_counts(bytes: Seq<u8>, names: Seq<Seq<char>>, events: Seq<HighlightEvent>)
    requires
        forall|i: int| 0 <= i < events.len() ==> #[trigger] event_valid(bytes, names, events[i]),
        forall|j: int| 0 <= j < names.len() ==> no_lt(#[trigger] names[j]),
    ensures
        open_tag_count(events_markup(bytes, names, events)) == start_count(events),
        close_tag_count(events_markup(bytes, names, events)) == start_count(events) - nesting(events),
        tail_safe(events_markup(bytes, names, events)),
    decreases events.len(),
{
    if events.len() > 0 {
        let pre = events.drop_last();
        let e = events.last();
        assert forall|i: int| 0 <= i < pre.len() implies #[trigger] event_valid(bytes, names, pre[i]) by {
            assert(event_valid(bytes, names, events[i]));
        }
        assert(event_valid(bytes, names, events[events.len() - 1]));
        lemma_events_counts(bytes, names, pre);
        let a = events_markup(bytes, names, pre);
        let b = event_markup(bytes, names, e);
        match e {
            HighlightEvent::Source { start, end } => {
                lemma_escape_safe(span_text(bytes, start as int, end as int));
                assert forall|i: int| 0 <= i < b.len() implies b[i] != '<' by {
                    assert(safe_at(b, i));
                }
                lemma_counts_no_lt(b);
            },
            HighlightEvent::HighlightStart(n) => {
                lemma_open_tag_counts(names[n as int]);
            },
            HighlightEvent::HighlightEnd => {
                lemma_close_tag_counts();
            },
        }
        lemma_counts_concat(a, b);
        assert(forall|i: int| 0 <= i < b.len() && b.len() - 2 <= i ==> b[i] != '<');
        assert(b.len() < 2 ==> no_lt(b));
        assert(tail_safe(a + b));
    }
}

proof fn lemma_markup_prefix(bytes: Seq<u8>, names: Seq<Seq<char>>, events: Seq<HighlightEvent>, k: int)
    requires
        0 <= k <= events.len(),
    ensures
        events_markup(bytes, names, events.subrange(0, k)).len() <= events_markup(bytes, names, events).len(),
        events_markup(bytes, names, events).subrange(0, events_markup(bytes, names, events.subrange(0, k)).len() as int)
            == events_markup(bytes, names, events.subrange(0, k)),
    decreases events.len(),
{
    if k == events.len() {
        assert(events.subrange(0, k) =~= events);
        let m = events_markup(bytes, names, events);
        assert(m.subrange(0, m.len() as int) =~= m);
    } else {
        let pre = events.drop_last();
        assert(pre.subrange(0, k) =~= events.subrange(0, k));
        lemma_markup_prefix(bytes, names, pre, k);
        let p = events_markup(bytes, names, events.subrange(0, k));
        let a = events_markup(bytes, names, pre);
        let m = events_markup(bytes, names, events);
        assert(m == a + event_markup(bytes, names, events.last()));
        assert(m.subrange(0, p.len() as int) =~= a.subrange(0, p.len() as int));
    }
}

/// Tag balance: when no capture name holds `<`, the markup of a well-formed
/// stream holds as many opening region tags as closing ones, as many as the
/// stream has `HighlightStart` events; and the part of the markup written
/// for each prefix of the stream is a prefix of it that holds no more
/// closing region tags than opening ones.
pub proof fn lemma_markup_tag_counts(bytes: Seq<u8>, names: Seq<Seq<char>>, events: Seq<HighlightEvent>)
    requires
        events.len() <= usize::MAX,
        well_formed_stream(bytes, names, events),
        forall|j: int| 0 <= j < names.len() ==> no_lt(#[trigger] names[j]),
    ensures
        markup_of(bytes, names, events) matches Ok(m) && open_tag_count(m) == start_count(events)
            && close_tag_count(m) == start_count(events),
        forall|k: int|
            #![trigger events.subrange(0, k)]
            0 <= k <= events.len() ==> {
                let part = root_open() + events_markup(bytes, names, events.subrange(0, k));
                &&& markup_of(bytes, names, events) matches Ok(m) && part.len() <= m.len() && m.subrange(
                    0,
                    part.len() as int,
                ) == part
                &&& close_tag_count(part) <= open_tag_count(part)
            },
{
    lemma_markup_well_nested(bytes, names, events);
    lemma_events_counts(bytes, names, events);
    lemma_root_counts();
    let body = events_markup(bytes, names, events);
    lemma_counts_concat(root_open(), body);
    assert(tail_safe(root_open() + body));
    lemma_counts_concat(root_open() + body, root_close());
    let m = root_open() + body + root_close();
    assert forall|k: int|
        #![trigger events.subrange(0, k)]
        0 <= k <= events.len() implies {
            let part = root_open() + events_markup(bytes, names, events.subrange(0, k));
            &&& part.len() <= m.len() && m.subrange(0, part.len() as int) == part
            &&& close_tag_count(part) <= open_tag_count(part)
        } by {
        let sub = events.subrange(0, k);
        let pm = events_markup(bytes, names, sub);
        let part = root_open() + pm;
        lemma_markup_prefix(bytes, names, events, k);
        assert(m.subrange(0, part.len() as int) =~= part);
        assert forall|i: int| 0 <= i < sub.len() implies #[trigger] event_valid(bytes, names, sub[i]) by {
            assert(event_valid(bytes, names, events[i]));
        }
        assert(nesting(events.subrange(0, k)) >= 0);
        lemma_events_counts(bytes, names, sub);
        lemma_counts_concat(root_open(), pm);
    }
}

} // verus!

//! Compiles a stream of highlight events over a source text into markup.
use vstd::prelude::*;
use vstd::utf8::*;
use vstd::slice::slice_subrange;
use vstd::string::*;
use crate::escape::{escape_html, escape_text};

verus! {

broadcast use vstd::utf8::group_utf8_lib;

/// One step of a highlighter's output.
#[derive(Clone, Copy, Debug, PartialEq, Eq, Structural)]
pub enum HighlightEvent {
    /// Literal text: the bytes `start..end` of the source.
    Source { start: usize, end: usize },
    /// Opens a region highlighted with the capture at this index of the table.
    HighlightStart(usize),
    /// Closes the innermost open region.
    HighlightEnd,
}

/// Why no markup could be produced.
#[derive(Clone, Copy, Debug, PartialEq, Eq, Structural)]
pub enum RenderError {
    /// The language could not be resolved to a highlighter.
    UnknownLanguage,
    /// The highlighter failed while producing an event.
    EventDecode,
    /// A source span lies outside the text or does not decode as UTF-8.
    InvalidUtf8Slice,
    /// The stream is not properly nested, or names a capture the table lacks.
    MalformedEventStream,
}

pub open spec fn root_open() -> Seq<char> {
    "<code class=\"tree-sitter-code\">"@
}

pub open spec fn root_close() -> Seq<char> {
    "</code>"@
}

pub open spec fn span_open_prefix() -> Seq<char> {
    "<span class=\""@
}

pub open spec fn span_open_suffix() -> Seq<char> {
    "\">"@
}

pub open spec fn span_close() -> Seq<char> {
    "</span>"@
}

/// The class list of a capture name: each dot-separated segment with a
/// `ts-` prefix, the segments joined by single spaces
/// (`function.call` gives `ts-function ts-call`).
pub open spec fn class_list(name: Seq<char>) -> Seq<char> {
    seq!['t', 's', '-'] + dots_to_separators(name)
}

/// `s` with every `.` replaced by ` ts-`.
pub open spec fn dots_to_separators(s: Seq<char>) -> Seq<char>
    decreases s.len(),
{
    if s.len() == 0 {
        seq![]
    } else {
        dots_to_separators(s.drop_last()) + (if s.last() == '.' {
            seq![' ', 't', 's', '-']
        } else {
            seq![s.last()]
        })
    }
}

/// The opening tag of a region highlighted with capture `name`.
pub open spec fn open_tag(name: Seq<char>) -> Seq<char> {
    span_open_prefix() + class_list(name) + span_open_suffix()
}

/// The capture-name table as sequences of characters.
pub open spec fn table_view(names: &[&str]) -> Seq<Seq<char>> {
    names@.map_values(|s: &str| s@)
}

/// The span `start..end` lies in `bytes`, begins and ends on character
/// boundaries, and is valid UTF-8 by itself.
pub open spec fn span_ok(bytes: Seq<u8>, start: int, end: int) -> bool {
    &&& 0 <= start <= end <= bytes.len()
    &&& is_char_boundary(bytes, start)
    &&& is_char_boundary(bytes, end)
    &&& valid_utf8(bytes.subrange(start, end))
}

/// The text of the span `start..end` of `bytes`.
pub open spec fn span_text(bytes: Seq<u8>, start: int, end: int) -> Seq<char> {
    decode_utf8(bytes.subrange(start, end))
}

/// The markup an accepted event appends.
pub open spec fn event_markup(bytes: Seq<u8>, names: Seq<Seq<char>>, e: HighlightEvent) -> Seq<char> {
    match e {
        HighlightEvent::Source { start, end } => escape_html(span_text(bytes, start as int, end as int)),
        HighlightEvent::HighlightStart(n) => open_tag(names[n as int]),
        HighlightEvent::HighlightEnd => span_close(),
    }
}

/// Whether event `e` is accepted when `depth` regions are open, and if not, why.
pub open spec fn event_check(bytes: Seq<u8>, names: Seq<Seq<char>>, depth: nat, e: HighlightEvent) -> Option<RenderError> {
    match e {
        HighlightEvent::Source { start, end } =>
            if span_ok(bytes, start as int, end as int) { None } else { Some(RenderError::InvalidUtf8Slice) },
        HighlightEvent::HighlightStart(n) =>
            if n < names.len() && depth < usize::MAX { None } else { Some(RenderError::MalformedEventStream) },
        HighlightEvent::HighlightEnd =>
            if depth > 0 { None } else { Some(RenderError::MalformedEventStream) },
    }
}

/// The change an accepted event makes to the number of open regions.
pub open spec fn depth_after(depth: nat, e: HighlightEvent) -> nat {
    match e {
        HighlightEvent::Source { .. } => depth,
        HighlightEvent::HighlightStart(_) => depth + 1,
        HighlightEvent::HighlightEnd => (depth - 1) as nat,
    }
}

/// The markup and the number of open regions after `events`, starting from
/// the opened root, or the error of the first event that is refused.
pub open spec fn run_events(bytes: Seq<u8>, names: Seq<Seq<char>>, events: Seq<HighlightEvent>)
    -> Result<(Seq<char>, nat), RenderError>
    decreases events.len(),
{
    if events.len() == 0 {
        Ok((root_open(), 0))
    } else {
        match run_events(bytes, names, events.drop_last()) {
            Err(err) => Err(err),
            Ok((out, depth)) => match event_check(bytes, names, depth, events.last()) {
                Some(err) => Err(err),
                None => Ok((out + event_markup(bytes, names, events.last()), depth_after(depth, events.last()))),
            },
        }
    }
}

/// The complete markup for `events` over the UTF-8 encoding `bytes` of the text.
pub open spec fn markup_of(bytes: Seq<u8>, names: Seq<Seq<char>>, events: Seq<HighlightEvent>)
    -> Result<Seq<char>, RenderError>
{
    match run_events(bytes, names, events) {
        Err(err) => Err(err),
        Ok((out, depth)) => if depth == 0 { Ok(out + root_close()) } else { Err(RenderError::MalformedEventStream) },
    }
}

/// Relies on std::str::from_utf8: it succeeds exactly on valid UTF-8, and the
/// string it returns has those bytes.
#[verifier::external_body]
fn decode_span(b: &[u8]) -> (r: Option<&str>)
    ensures
        r is Some <==> valid_utf8(b@),
        r matches Some(s) ==> s.spec_bytes() == b@,
{
    std::str::from_utf8(b).ok()
}

/// Builds the class list of capture `name`.
pub fn class_list_of(name: &str) -> (r: String)
    ensures
        r@ == class_list(name@),
{
    proof {
        reveal_strlit("ts-");
    }
    let mut r = String::from_str("ts-");
    let n = name.unicode_len();
    let mut i: usize = 0;
    while i < n
        invariant
            n == name@.len(),
            i <= n,
            r@ == seq!['t', 's', '-'] + dots_to_separators(name@.subrange(0, i as int)),
        decreases n - i,
    {
        let c = name.get_char(i);
        let ghost next = name@.subrange(0, i + 1);
        proof {
            assert(next.drop_last() =~= name@.subrange(0, i as int));
            assert(next.last() == c);
            assert(dots_to_separators(next) == dots_to_separators(name@.subrange(0, i as int)) + (
            if c == '.' {
                seq![' ', 't', 's', '-']
            } else {
                seq![c]
            }));
        }
        if c == '.' {
            proof {
                reveal_strlit(" ts-");
            }
            r.append(" ts-");
        } else {
            let piece = name.substring_char(i, i + 1);
            assert(piece@ =~= seq![c]);
            r.append(piece);
        }
        assert(r@ =~= seq!['t', 's', '-'] + dots_to_separators(next));
        i = i + 1;
    }
    assert(name@.subrange(0, n as int) =~= name@);
    r
}

/// Once a prefix of the stream is refused, the whole stream is refused
/// with the same error.
pub proof fn lemma_refusal_persists(
    bytes: Seq<u8>,
    names: Seq<Seq<char>>,
    events: Seq<HighlightEvent>,
    k: int,
)
    requires
        0 <= k <= events.len(),
        run_events(bytes, names, events.subrange(0, k)) is Err,
    ensures
        run_events(bytes, names, events) == run_events(bytes, names, events.subrange(0, k)),
    decreases events.len(),
{
    if k < events.len() {
        assert(events.drop_last().subrange(0, k) =~= events.subrange(0, k));
        lemma_refusal_persists(bytes, names, events.drop_last(), k);
    } else {
        assert(events.subrange(0, k) =~= events);
    }
}

/// Markup built so far from a prefix of an event stream: the opened root
/// followed by the markup of each accepted event.
pub struct MarkupCompiler {
    out: String,
    depth: usize,
}

impl MarkupCompiler {
    /// The markup built so far.
    pub closed spec fn markup(&self) -> Seq<char> {
        self.out@
    }

    /// The number of highlighted regions that are open.
    pub closed spec fn open_regions(&self) -> nat {
        self.depth as nat
    }

    /// A compiler that has opened the root container and nothing else.
    pub fn new() -> (r: Self)
        ensures
            r.markup() == root_open(),
            r.open_regions() == 0,
    {
        MarkupCompiler { out: String::from_str("<code class=\"tree-sitter-code\">"), depth: 0 }
    }

    /// The number of highlighted regions that are open.
    pub fn depth(&self) -> (r: usize)
        ensures
            r == self.open_regions(),
    {
        self.depth
    }

    /// Appends the markup of `event` over `text`, with capture names drawn
    /// from `names`. A refused event leaves the compiler as it was.
    pub fn push_event(&mut self, text: &str, names: &[&str], event: HighlightEvent) -> (r: Result<(), RenderError>)
        ensures
            match event_check(text.spec_bytes(), table_view(names), old(self).open_regions(), event) {
                Some(err) => r == Err::<(), RenderError>(err) && *final(self) == *old(self),
                None => {
                    &&& r is Ok
                    &&& final(self).markup() == old(self).markup() + event_markup(text.spec_bytes(), table_view(names), event)
                    &&& final(self).open_regions() == depth_after(old(self).open_regions(), event)
                },
            },
    {
        match event {
            HighlightEvent::Source { start, end } => {
                let bytes = text.as_bytes();
                if start > end || end > bytes.len() {
                    return Err(RenderError::InvalidUtf8Slice);
                }
                if !text.is_char_boundary(start) || !text.is_char_boundary(end) {
                    return Err(RenderError::InvalidUtf8Slice);
                }
                let span = slice_subrange(bytes, start, end);
                match decode_span(span) {
                    None => Err(RenderError::InvalidUtf8Slice),
                    Some(literal) => {
                        proof {
                            assert(literal@ == decode_utf8(literal.spec_bytes()));
                        }
                        let escaped = escape_text(literal);
                        self.out.append(escaped.as_str());
                        Ok(())
                    },
                }
            },
            HighlightEvent::HighlightStart(n) => {
                if n >= names.len() || self.depth == usize::MAX {
                    return Err(RenderError::MalformedEventStream);
                }
                proof {
                    reveal_strlit("<span class=\"");
                    reveal_strlit("\">");
                }
                let classes = class_list_of(names[n]);
                self.out.append("<span class=\"");
                self.out.append(classes.as_str());
                self.out.append("\">");
                self.depth = self.depth + 1;
                Ok(())
            },
            HighlightEvent::HighlightEnd => {
                if self.depth == 0 {
                    return Err(RenderError::MalformedEventStream);
                }
                self.out.append("</span>");
                self.depth = self.depth - 1;
                Ok(())
            },
        }
    }

    /// Closes the root container and hands out the markup, provided every
    /// highlighted region was closed.
    pub fn finish(self) -> (r: Result<String, RenderError>)
        ensures
            self.open_regions() == 0 ==> (r matches Ok(s) && s@ == self.markup() + root_close()),
            self.open_regions() != 0 ==> r == Err::<String, RenderError>(RenderError::MalformedEventStream),
    {
        if self.depth != 0 {
            return Err(RenderError::MalformedEventStream);
        }
        let mut out = self.out;
        out.append("</code>");
        Ok(out)
    }
}

/// The markup for `events` over `text`, with capture names drawn from
/// `names`; the error of the first refused event, or
/// `MalformedEventStream` when regions are left open at the end.
pub fn compile_markup(text: &str, names: &[&str], events: &[HighlightEvent]) -> (r: Result<String, RenderError>)
    ensures
        match markup_of(text.spec_bytes(), table_view(names), events@) {
            Ok(m) => r matches Ok(s) && s@ == m,
            Err(err) => r == Err::<String, RenderError>(err),
        },
{
    let ghost bytes = text.spec_bytes();
    let ghost table = table_view(names);
    let mut compiler = MarkupCompiler::new();
    let mut i: usize = 0;
    assert(events@.subrange(0, 0) =~= Seq::<HighlightEvent>::empty());
    while i < events.len()
        invariant
            i <= events@.len(),
            bytes == text.spec_bytes(),
            table == table_view(names),
            run_events(bytes, table, events@.subrange(0, i as int)) == Ok::<(Seq<char>, nat), RenderError>(
                (compiler.markup(), compiler.open_regions()),
            ),
        decreases events.len() - i,
    {
        let event = events[i];
        assert(events@.subrange(0, i + 1).drop_last() =~= events@.subrange(0, i as int));
        assert(events@.subrange(0, i + 1).last() == event);
        match compiler.push_event(text, names, event) {
            Err(err) => {
                proof {
                    lemma_refusal_persists(bytes, table, events@, i + 1);
                }
                return Err(err);
            },
            Ok(()) => {},
        }
        i = i + 1;
    }
    assert(events@.subrange(0, i as int) =~= events@);
    compiler.finish()
}

} // verus!

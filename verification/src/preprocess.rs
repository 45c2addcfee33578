//! Expanding the include directives of shader sources. A line that reads
//! `// #include <file>` stands for the contents of that file.

use crate::error::Error;
use crate::text::str_equals;
use vstd::prelude::*;

verus! {

/// The grammar of an include directive, as a regular expression. The
/// second group is the name of the file.
pub const INCLUDE_PATTERN: &'static str = "^(// \\#include ([a-z0-9\\-_./]+))$";

/// What every directive starts with.
pub open spec fn directive_prefix() -> Seq<char> {
    seq!['/', '/', ' ', '#', 'i', 'n', 'c', 'l', 'u', 'd', 'e', ' ']
}

/// The characters that the name of an included file may hold.
pub open spec fn is_name_char(c: char) -> bool {
    ('a' <= c <= 'z') || ('0' <= c <= '9') || c == '-' || c == '_' || c == '.' || c == '/'
}

/// The file that a line includes, if the line is a directive: the prefix,
/// then a name of one or more name characters, and nothing else.
pub open spec fn include_target(line: Seq<char>) -> Option<Seq<char>> {
    let name = line.skip(12);
    if line.len() > 12 && line.take(12) == directive_prefix() && forall|i: int|
        0 <= i < name.len() ==> is_name_char(#[trigger] name[i]) {
        Some(name)
    } else {
        None
    }
}

/// White space as Unicode defines it.
pub open spec fn is_white_space(c: char) -> bool {
    let code = c as u32;
    (0x09 <= code <= 0x0d) || code == 0x20 || code == 0x85 || code == 0xa0 || code == 0x1680 || (
    0x2000 <= code <= 0x200a) || code == 0x2028 || code == 0x2029 || code == 0x202f || code
        == 0x205f || code == 0x3000
}

/// The number of white-space characters that `text` starts with.
pub open spec fn leading_space(text: Seq<char>) -> nat
    decreases text.len(),
{
    if text.len() > 0 && is_white_space(text[0]) {
        1 + leading_space(text.drop_first())
    } else {
        0
    }
}

/// The number of white-space characters that `text` ends with.
pub open spec fn trailing_space(text: Seq<char>) -> nat
    decreases text.len(),
{
    if text.len() > 0 && is_white_space(text.last()) {
        1 + trailing_space(text.drop_last())
    } else {
        0
    }
}

/// `text` without the white space at its start and at its end.
pub open spec fn trimmed(text: Seq<char>) -> Seq<char> {
    let start = leading_space(text);
    if start == text.len() {
        Seq::empty()
    } else {
        text.subrange(start as int, text.len() - trailing_space(text))
    }
}

/// The place of the first line feed of `text`, or its length if it has none.
pub open spec fn first_line_feed(text: Seq<char>) -> nat
    decreases text.len(),
{
    if text.len() == 0 || text[0] == '\n' {
        0
    } else {
        1 + first_line_feed(text.drop_first())
    }
}

/// `line` without the carriage return that it may end with.
pub open spec fn without_return(line: Seq<char>) -> Seq<char> {
    if line.len() > 0 && line.last() == '\r' {
        line.drop_last()
    } else {
        line
    }
}

/// The lines of `text`. A line ends with a line feed, or with a carriage
/// return and a line feed, or with the text; the line ending is no part of
/// the line, and an empty text has no line.
pub open spec fn lines_of(text: Seq<char>) -> Seq<Seq<char>>
    decreases text.len(),
{
    if text.len() == 0 {
        Seq::empty()
    } else {
        let cut = first_line_feed(text) as int;
        if cut >= text.len() {
            seq![text]
        } else {
            seq![without_return(text.take(cut))] + lines_of(text.skip(cut + 1))
        }
    }
}

/// The files that the lines include, in the order of the lines.
pub open spec fn targets_of(lines: Seq<Seq<char>>) -> Seq<Seq<char>>
    decreases lines.len(),
{
    if lines.len() == 0 {
        Seq::empty()
    } else {
        match include_target(lines.last()) {
            Some(name) => targets_of(lines.drop_last()).push(name),
            None => targets_of(lines.drop_last()),
        }
    }
}

/// The lines, with each directive replaced by the inclusion that stands at
/// its place among the directives.
pub open spec fn replaced(lines: Seq<Seq<char>>, inclusions: Seq<Seq<char>>) -> Seq<Seq<char>>
    decreases lines.len(),
{
    if lines.len() == 0 {
        Seq::empty()
    } else {
        let before = lines.drop_last();
        match include_target(lines.last()) {
            Some(_) => replaced(before, inclusions).push(
                inclusions[targets_of(before).len() as int],
            ),
            None => replaced(before, inclusions).push(lines.last()),
        }
    }
}

/// The parts one after the other, each followed by a line feed.
pub open spec fn terminated(parts: Seq<Seq<char>>) -> Seq<char>
    decreases parts.len(),
{
    if parts.len() == 0 {
        Seq::empty()
    } else {
        terminated(parts.drop_last()) + parts.last() + seq!['\n']
    }
}

/// The source `text` with its directives replaced by `inclusions`: the
/// text is trimmed and cut into lines, each directive gives way to its
/// inclusion, and every line is ended by a line feed. A text without lines
/// becomes one line feed.
pub open spec fn expanded(text: Seq<char>, inclusions: Seq<Seq<char>>) -> Seq<char> {
    let lines = lines_of(trimmed(text));
    if lines.len() == 0 {
        seq!['\n']
    } else {
        terminated(replaced(lines, inclusions))
    }
}

/// The files that the source `text` includes, in order.
pub open spec fn includes_of(text: Seq<char>) -> Seq<Seq<char>> {
    targets_of(lines_of(trimmed(text)))
}

/// The name of the file that `line` includes, if `line` matches the
/// regular expression `pattern`. Calls `regex::Regex::new`,
/// `Regex::captures` and reads the second group. The pattern is that of
/// include directives and nothing else, so the expression compiles; it is
/// anchored at both ends of the line and all its characters are literal
/// but for the class of name characters, so it matches exactly the lines
/// that [`include_target`] accepts, and the second group is the name.
#[verifier::external_body]
fn capture_include(pattern: &str, line: &str) -> (name: Option<String>)
    requires
        pattern@ == INCLUDE_PATTERN@,
    ensures
        match include_target(line@) {
            Some(target) => name matches Some(found) && found@ == target,
            None => name is None,
        },
{
    regex::Regex::new(pattern).unwrap().captures(line).map(|found| found[2].to_owned())
}

/// Whether `c` is white space.
pub fn char_is_white_space(c: char) -> (white: bool)
    ensures
        white == is_white_space(c),
{
    let code: u32 = c as u32;
    (0x09 <= code && code <= 0x0d) || code == 0x20 || code == 0x85 || code == 0xa0 || code
        == 0x1680 || (0x2000 <= code && code <= 0x200a) || code == 0x2028 || code == 0x2029
        || code == 0x202f || code == 0x205f || code == 0x3000
}

/// The characters of a text.
pub fn chars_of(text: &str) -> (chars: Vec<char>)
    ensures
        chars@ == text@,
{
    let mut chars: Vec<char> = Vec::new();
    for c in iter: text.chars()
        invariant
            iter.seq() == text@,
            chars@ == iter.seq().take(iter.index() as int),
    {
        chars.push(c);
        assert(chars@ =~= iter.seq().take(iter.index() + 1));
    }
    assert(chars@ =~= text@);
    chars
}

/// A line of a text: the characters from `start` up to `end`.
#[derive(Debug, Clone, Copy, PartialEq, Eq, Structural)]
pub struct Span {
    pub start: usize,
    pub end: usize,
}

/// The characters that the spans cut out of `text`.
pub open spec fn cut_out(text: Seq<char>, spans: Seq<Span>) -> Seq<Seq<char>> {
    Seq::new(spans.len(), |i: int| text.subrange(spans[i].start as int, spans[i].end as int))
}

/// The white space at the start of a text ends where the first other
/// character stands.
proof fn leading_space_ends(text: Seq<char>, count: int)
    requires
        0 <= count <= text.len(),
        forall|i: int| 0 <= i < count ==> is_white_space(#[trigger] text[i]),
        count < text.len() ==> !is_white_space(text[count]),
    ensures
        leading_space(text) == count,
    decreases count,
{
    if count > 0 {
        let rest = text.drop_first();
        assert forall|i: int| 0 <= i < count - 1 implies is_white_space(#[trigger] rest[i]) by {
            assert(rest[i] == text[i + 1]);
        }
        leading_space_ends(rest, count - 1);
    }
}

/// The white space at the end of a text starts after the last other character.
proof fn trailing_space_starts(text: Seq<char>, count: int)
    requires
        0 <= count <= text.len(),
        forall|i: int| text.len() - count <= i < text.len() ==> is_white_space(#[trigger] text[i]),
        count < text.len() ==> !is_white_space(text[text.len() - count - 1]),
    ensures
        trailing_space(text) == count,
    decreases count,
{
    if count > 0 {
        let rest = text.drop_last();
        assert forall|i: int| rest.len() - (count - 1) <= i < rest.len() implies is_white_space(
            #[trigger] rest[i],
        ) by {
            assert(rest[i] == text[i]);
        }
        trailing_space_starts(rest, count - 1);
    }
}

/// The first line feed of a text stands where no line feed stands before.
proof fn first_line_feed_found(text: Seq<char>, cut: int)
    requires
        0 <= cut <= text.len(),
        forall|i: int| 0 <= i < cut ==> #[trigger] text[i] != '\n',
        cut < text.len() ==> text[cut] == '\n',
    ensures
        first_line_feed(text) == cut,
    decreases cut,
{
    if cut > 0 {
        let rest = text.drop_first();
        assert forall|i: int| 0 <= i < cut - 1 implies #[trigger] rest[i] != '\n' by {
            assert(rest[i] == text[i + 1]);
        }
        first_line_feed_found(rest, cut - 1);
    }
}

/// The part of `chars` that is left when white space is trimmed.
fn trim_span(chars: &Vec<char>) -> (span: Span)
    ensures
        span.start <= span.end <= chars@.len(),
        chars@.subrange(span.start as int, span.end as int) == trimmed(chars@),
{
    let length: usize = chars.len();
    let mut start: usize = 0;
    while start < length && char_is_white_space(chars[start])
        invariant
            start <= length,
            length == chars@.len(),
            forall|i: int| 0 <= i < start ==> is_white_space(#[trigger] chars@[i]),
        decreases length - start,
    {
        start += 1;
    }
    proof {
        leading_space_ends(chars@, start as int);
    }
    if start == length {
        assert(chars@.subrange(start as int, start as int) =~= Seq::<char>::empty());
        return Span { start, end: start };
    }
    let mut end: usize = length;
    while end > start + 1 && char_is_white_space(chars[end - 1])
        invariant
            start < end <= length,
            length == chars@.len(),
            !is_white_space(chars@[start as int]),
            forall|i: int| end <= i < length ==> is_white_space(#[trigger] chars@[i]),
        decreases end,
    {
        end -= 1;
    }
    proof {
        trailing_space_starts(chars@, length - end);
    }
    Span { start, end }
}

/// The lines of the part of `chars` that `within` cuts out.
#[verifier::rlimit(50)]
fn line_spans(chars: &Vec<char>, within: Span) -> (spans: Vec<Span>)
    requires
        within.start <= within.end <= chars@.len(),
    ensures
        cut_out(chars@, spans@) == lines_of(
            chars@.subrange(within.start as int, within.end as int),
        ),
        forall|i: int| 0 <= i < spans@.len() ==> (#[trigger] spans@[i]).start <= spans@[i].end
            <= chars@.len(),
{
    let ghost whole = chars@.subrange(within.start as int, within.end as int);
    let mut spans: Vec<Span> = Vec::new();
    let mut at: usize = within.start;
    assert(chars@.subrange(at as int, within.end as int) =~= whole);
    assert(cut_out(chars@, spans@) =~= Seq::<Seq<char>>::empty());
    while at < within.end
        invariant
            within.start <= at <= within.end <= chars@.len(),
            forall|i: int| 0 <= i < spans@.len() ==> (#[trigger] spans@[i]).start <= spans@[i].end
                <= chars@.len(),
            cut_out(chars@, spans@) + lines_of(chars@.subrange(at as int, within.end as int))
                == lines_of(whole),
        decreases within.end - at,
    {
        let ghost rest = chars@.subrange(at as int, within.end as int);
        let ghost done = cut_out(chars@, spans@);
        let mut cut: usize = at;
        while cut < within.end && chars[cut] != '\n'
            invariant
                at <= cut <= within.end <= chars@.len(),
                forall|i: int| at <= i < cut ==> #[trigger] chars@[i] != '\n',
            decreases within.end - cut,
        {
            cut += 1;
        }
        proof {
            assert forall|i: int| 0 <= i < cut - at implies #[trigger] rest[i] != '\n' by {
                assert(rest[i] == chars@[at + i]);
            }
            first_line_feed_found(rest, cut - at);
        }
        if cut == within.end {
            spans.push(Span { start: at, end: cut });
            proof {
                assert(lines_of(rest) == seq![rest]);
                assert(cut_out(chars@, spans@) =~= done.push(rest));
                assert(chars@.subrange(cut as int, within.end as int) =~= Seq::<char>::empty());
                assert(done.push(rest) + Seq::<Seq<char>>::empty() =~= done + seq![rest]);
            }
            at = cut;
        } else {
            let end: usize = if cut > at && chars[cut - 1] == '\r' {
                cut - 1
            } else {
                cut
            };
            spans.push(Span { start: at, end });
            proof {
                let line = without_return(rest.take(cut - at));
                assert(rest.take(cut - at) =~= chars@.subrange(at as int, cut as int));
                assert(line =~= chars@.subrange(at as int, end as int));
                assert(rest.skip(cut - at + 1) =~= chars@.subrange(cut + 1, within.end as int));
                assert(cut_out(chars@, spans@) =~= done.push(line));
                assert(done.push(line) + lines_of(rest.skip(cut - at + 1)) =~= done + (seq![line]
                    + lines_of(rest.skip(cut - at + 1))));
            }
            at = cut + 1;
        }
    }
    proof {
        assert(chars@.subrange(at as int, within.end as int) =~= Seq::<char>::empty());
        assert(cut_out(chars@, spans@) + Seq::<Seq<char>>::empty() =~= cut_out(chars@, spans@));
    }
    spans
}

/// The lines of a source, as spans of its characters.
fn source_lines(content: &str) -> (spans: Vec<Span>)
    ensures
        cut_out(content@, spans@) == lines_of(trimmed(content@)),
        forall|i: int| 0 <= i < spans@.len() ==> (#[trigger] spans@[i]).start <= spans@[i].end
            <= content@.len(),
{
    let chars = chars_of(content);
    let within = trim_span(&chars);
    line_spans(&chars, within)
}

/// The names of the files that a source includes, in the order of its
/// directives.
pub fn include_targets(content: &str) -> (names: Vec<String>)
    ensures
        names@.len() == includes_of(content@).len(),
        forall|i: int| 0 <= i < names@.len() ==> (#[trigger] names@[i])@ == includes_of(
            content@,
        )[i],
{
    let spans = source_lines(content);
    let ghost lines = cut_out(content@, spans@);
    let mut names: Vec<String> = Vec::new();
    let mut index: usize = 0;
    while index < spans.len()
        invariant
            index <= spans@.len(),
            lines == cut_out(content@, spans@),
            forall|i: int| 0 <= i < spans@.len() ==> (#[trigger] spans@[i]).start <= spans@[i].end
                <= content@.len(),
            names@.len() == targets_of(lines.take(index as int)).len(),
            forall|i: int| 0 <= i < names@.len() ==> (#[trigger] names@[i])@ == targets_of(
                lines.take(index as int),
            )[i],
        decreases spans@.len() - index,
    {
        let span = spans[index];
        let line = content.substring_char(span.start, span.end);
        proof {
            let next = lines.take(index + 1);
            assert(next.drop_last() =~= lines.take(index as int));
            assert(next.last() == line@);
        }
        match capture_include(INCLUDE_PATTERN, line) {
            Some(name) => {
                names.push(name);
            },
            None => {},
        }
        index += 1;
    }
    assert(lines.take(index as int) =~= lines);
    names
}

/// Replaces the directives of a source by the given inclusions, the first
/// directive by the first inclusion and so on. Fails when there are not as
/// many inclusions as directives.
#[verifier::rlimit(50)]
pub fn splice(content: &str, inclusions: &Vec<String>) -> (text: Result<String, Error>)
    ensures
        inclusions@.len() == includes_of(content@).len() ==> (text matches Ok(whole) && whole@
            == expanded(content@, Seq::new(inclusions@.len(), |i: int| inclusions@[i]@))),
        inclusions@.len() != includes_of(content@).len() ==> text matches Err(
            Error::InclusionMismatch,
        ),
{
    let spans = source_lines(content);
    let ghost lines = cut_out(content@, spans@);
    let ghost given = Seq::new(inclusions@.len(), |i: int| inclusions@[i]@);
    let mut text = String::new();
    let mut used: usize = 0;
    let mut index: usize = 0;
    assert(text@ =~= terminated(replaced(lines.take(0), given)));
    while index < spans.len()
        invariant
            index <= spans@.len(),
            lines == cut_out(content@, spans@),
            given == Seq::new(inclusions@.len(), |i: int| inclusions@[i]@),
            forall|i: int| 0 <= i < spans@.len() ==> (#[trigger] spans@[i]).start <= spans@[i].end
                <= content@.len(),
            lines == lines_of(trimmed(content@)),
            used == targets_of(lines.take(index as int)).len(),
            used <= inclusions@.len(),
            text@ == terminated(replaced(lines.take(index as int), given)),
        decreases spans@.len() - index,
    {
        let span = spans[index];
        let line = content.substring_char(span.start, span.end);
        let ghost before = lines.take(index as int);
        let ghost next = lines.take(index + 1);
        proof {
            reveal_strlit("\n");
            assert(next.drop_last() =~= before);
            assert(next.last() == line@);
            assert(lines[index as int] == line@);
            targets_grow(lines, index as int);
        }
        match capture_include(INCLUDE_PATTERN, line) {
            Some(_) => {
                if used >= inclusions.len() {
                    return Err(Error::InclusionMismatch);
                }
                text.append(inclusions[used].as_str());
                assert(given[used as int] == inclusions@[used as int]@);
                used += 1;
            },
            None => {
                text.append(line);
            },
        }
        text.append("\n");
        proof {
            let parts = replaced(next, given);
            assert(parts.drop_last() =~= replaced(before, given));
            assert(text@ =~= terminated(parts));
        }
        index += 1;
    }
    assert(lines.take(index as int) =~= lines);
    if used != inclusions.len() {
        return Err(Error::InclusionMismatch);
    }
    if spans.len() == 0 {
        proof {
            reveal_strlit("\n");
        }
        text.append("\n");
        assert(text@ =~= seq!['\n']);
    }
    Ok(text)
}

/// The directives among the first lines are among the directives of all lines.
proof fn targets_grow(lines: Seq<Seq<char>>, count: int)
    requires
        0 <= count <= lines.len(),
    ensures
        targets_of(lines.take(count)).len() <= targets_of(lines).len(),
        count < lines.len() && include_target(lines[count]) is Some ==> targets_of(
            lines.take(count),
        ).len() < targets_of(lines).len(),
    decreases lines.len() - count,
{
    if count == lines.len() {
        assert(lines.take(count) =~= lines);
    } else {
        targets_grow(lines, count + 1);
        let next = lines.take(count + 1);
        assert(next.drop_last() =~= lines.take(count));
        assert(next.last() == lines[count]);
    }
}

/// The list holds the path.
pub open spec fn holds_path(inflated: Seq<String>, path: Seq<char>) -> bool {
    exists|i: int| 0 <= i < inflated.len() && (#[trigger] inflated[i])@ == path
}

/// Whether the list holds the path.
pub fn is_inflated(inflated: &Vec<String>, path: &str) -> (found: bool)
    ensures
        found == holds_path(inflated@, path@),
{
    let mut index: usize = 0;
    while index < inflated.len()
        invariant
            index <= inflated@.len(),
            forall|i: int| 0 <= i < index ==> (#[trigger] inflated@[i])@ != path@,
        decreases inflated@.len() - index,
    {
        if str_equals(inflated[index].as_str(), path) {
            return true;
        }
        index += 1;
    }
    false
}

/// Takes note that the file at `path` is included. A file is included once
/// at most, wherever in the sources: a second time is refused.
pub fn note_inflated(inflated: &mut Vec<String>, path: &str) -> (noted: Result<(), Error>)
    ensures
        holds_path(old(inflated)@, path@) ==> (noted matches Err(Error::IncludeRecursion)
            && final(inflated)@ == old(inflated)@),
        !holds_path(old(inflated)@, path@) ==> (noted matches Ok(_)
            && final(inflated)@.len() == old(inflated)@.len() + 1
            && final(inflated)@.last()@ == path@
            && final(inflated)@.drop_last() == old(inflated)@),
{
    if is_inflated(inflated, path) {
        return Err(Error::IncludeRecursion);
    }
    let ghost before = inflated@;
    inflated.push(path.to_owned());
    assert(inflated@.drop_last() =~= before);
    Ok(())
}

} // verus!

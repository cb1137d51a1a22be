//! The line scanner: a document is read line by line, a heading sets or
//! clears the work item in scope, and each annotation line gives one record.

use vstd::prelude::*;
use vstd::string::*;
use crate::duration::{
    duration_of, duration_tokens, group, group_text, parse_duration, TimeDuration,
};
use crate::matching::{captures, find_all, is_match, regex_captures, regex_is_match, trim, trimmed};
use crate::tags::{found_tags, tag_string, tag_string_of, TAG_PATTERN};
use crate::text::{is_number, lines_of, parse_number, split_lines};

verus! {

/// A heading that names a work item: heading marks, white space, then
/// `Work on [[N]]`, letters in either case.
pub const WORK_ITEM_PATTERN: &'static str = "(?i)^#+\\s+Work on \\[\\[(\\d+)\\]\\]";

/// Any heading: heading marks and white space at the start of the line.
pub const HEADING_PATTERN: &'static str = "(?i)^#+\\s+";

/// An annotation: some text, a bracketed `timeTracked:` clause with a
/// duration expression, and the rest of the line. The text in front is as
/// short as it can be.
pub const TRACKED_PATTERN: &'static str =
    "(?P<text>.*?)(?:\\[\\s*timeTracked\\s*:\\s*(?P<duration>[^\\]]+)\\])(?P<tags>.*)";

/// What a line means to the scanner.
#[derive(Debug)]
pub enum LineEvent {
    /// A heading that names a work item; the field is its tag.
    WorkItem(String),
    /// Any other heading.
    Heading,
    /// An annotation: the text beside its clause, the tags found in that
    /// text, and its duration.
    Annotation { text: String, tags: Vec<String>, duration: TimeDuration },
    /// Anything else.
    Other,
}

/// A `LineEvent` as plain values.
pub enum LineEventView {
    WorkItem(Seq<char>),
    Heading,
    Annotation { text: Seq<char>, tags: Seq<Seq<char>>, duration: TimeDuration },
    Other,
}

impl View for LineEvent {
    type V = LineEventView;

    open spec fn view(&self) -> LineEventView {
        match self {
            LineEvent::WorkItem(tag) => LineEventView::WorkItem(tag@),
            LineEvent::Heading => LineEventView::Heading,
            LineEvent::Annotation { text, tags, duration } => LineEventView::Annotation {
                text: text@,
                tags: tags.deep_view(),
                duration: *duration,
            },
            LineEvent::Other => LineEventView::Other,
        }
    }
}

/// How the tag of a work item begins.
pub open spec fn work_item_prefix() -> Seq<char> {
    seq!['#', 'p', 'b', 'i', '-']
}

/// The groups of the first match of a pattern in a text; none where nothing
/// matches or the pattern is not accepted.
pub open spec fn first_match(pattern: Seq<char>, text: Seq<char>) -> Option<
    Seq<Option<Seq<char>>>,
> {
    match regex_captures(pattern, text) {
        Some(Some(groups)) => Some(groups),
        _ => None,
    }
}

/// The tag of the work item that a heading match names: `#pbi-` and the
/// digits of group 1. None where there is no match, or where group 1 is not a
/// run of ASCII digits.
pub open spec fn work_item_tag(found: Option<Seq<Option<Seq<char>>>>) -> Option<Seq<char>> {
    match found {
        Some(groups) => if is_number(group(groups, 1)) {
            Some(work_item_prefix() + group(groups, 1))
        } else {
            None
        },
        None => None,
    }
}

/// The text of an annotation line beside its clause: what stands in front
/// (group 1), a space, what stands behind (group 3), trimmed.
pub open spec fn annotation_text(groups: Seq<Option<Seq<char>>>) -> Seq<char> {
    trimmed(group(groups, 1) + seq![' '] + group(groups, 3))
}

/// What a line means: headings are looked for first, so a line never both
/// sets the work item and gives a record.
pub open spec fn line_event(line: Seq<char>) -> LineEventView {
    if work_item_tag(first_match(WORK_ITEM_PATTERN@, line)) is Some {
        LineEventView::WorkItem(work_item_tag(first_match(WORK_ITEM_PATTERN@, line))->0)
    } else if regex_is_match(HEADING_PATTERN@, line) == Some(true) {
        LineEventView::Heading
    } else {
        match first_match(TRACKED_PATTERN@, line) {
            Some(groups) => LineEventView::Annotation {
                text: annotation_text(groups),
                tags: found_tags(annotation_text(groups)),
                duration: duration_of(duration_tokens(group(groups, 2))),
            },
            None => LineEventView::Other,
        }
    }
}

/// The work item in scope after a line: a work-item heading sets it, any
/// other heading clears it, every other line leaves it.
pub open spec fn next_context(context: Option<Seq<char>>, event: LineEventView) -> Option<
    Seq<char>,
> {
    match event {
        LineEventView::WorkItem(tag) => Some(tag),
        LineEventView::Heading => None,
        _ => context,
    }
}

/// The record that a line gives: one for an annotation, with the tag string
/// made under the work item in scope, and none for any other line.
pub open spec fn emitted(context: Option<Seq<char>>, event: LineEventView, sort: bool) -> Option<
    (Seq<char>, TimeDuration),
> {
    match event {
        LineEventView::Annotation { text, tags, duration } => Some(
            (tag_string(tags, context, sort), duration),
        ),
        _ => None,
    }
}

/// The records of a sequence of lines, in line order, starting with
/// `context` as the work item in scope.
pub open spec fn scan(lines: Seq<Seq<char>>, context: Option<Seq<char>>, sort: bool) -> Seq<
    (Seq<char>, TimeDuration),
>
    decreases lines.len(),
{
    if lines.len() == 0 {
        Seq::empty()
    } else {
        let event = line_event(lines[0]);
        let rest = scan(lines.drop_first(), next_context(context, event), sort);
        match emitted(context, event, sort) {
            Some(record) => seq![record] + rest,
            None => rest,
        }
    }
}

/// The work item in scope after a sequence of lines that starts with
/// `context` in scope.
pub open spec fn context_after(lines: Seq<Seq<char>>, context: Option<Seq<char>>) -> Option<
    Seq<char>,
>
    decreases lines.len(),
{
    if lines.len() == 0 {
        context
    } else {
        context_after(lines.drop_first(), next_context(context, line_event(lines[0])))
    }
}

/// Records as plain values.
pub open spec fn record_views(records: Seq<(String, TimeDuration)>) -> Seq<
    (Seq<char>, TimeDuration),
> {
    Seq::new(records.len(), |i: int| (records[i].0@, records[i].1))
}

/// The tag of the work item that a heading match names, where its digits can
/// be read.
pub fn work_item_of(found: &Option<Vec<Option<String>>>) -> (r: Option<String>)
    ensures
        r.deep_view() == work_item_tag(found.deep_view()),
{
    match found {
        Some(groups) => {
            let digits: &str = group_text(groups, 1);
            match parse_number(digits) {
                Some(_) => {
                    proof {
                        reveal_strlit("#pbi-");
                    }
                    let mut tag: String = String::from_str("#pbi-");
                    tag.append(digits);
                    assert(tag@ =~= work_item_prefix() + digits@);
                    Some(tag)
                },
                None => None,
            }
        },
        None => None,
    }
}

/// The first match of a pattern in a text, if the pattern is accepted and
/// matches.
fn first_match_of(pattern: &str, text: &str) -> (r: Option<Vec<Option<String>>>)
    ensures
        r.deep_view() == first_match(pattern@, text@),
{
    match captures(pattern, text) {
        Some(Some(groups)) => Some(groups),
        _ => None,
    }
}

/// The text of an annotation line beside its clause.
fn annotation_text_of(groups: &Vec<Option<String>>) -> (r: String)
    ensures
        r@ == annotation_text(groups.deep_view()),
{
    proof {
        reveal_strlit(" ");
    }
    let mut combined: String = String::from_str(group_text(groups, 1));
    combined.append(" ");
    combined.append(group_text(groups, 3));
    assert(combined@ =~= group(groups.deep_view(), 1) + seq![' '] + group(groups.deep_view(), 3));
    trim(combined.as_str())
}

/// Reads one line: a work-item heading, another heading, an annotation with
/// its tags and duration, or nothing of interest.
pub fn read_line(line: &str) -> (r: LineEvent)
    ensures
        r@ == line_event(line@),
{
    let heading: Option<Vec<Option<String>>> = first_match_of(WORK_ITEM_PATTERN, line);
    match work_item_of(&heading) {
        Some(tag) => {
            return LineEvent::WorkItem(tag);
        },
        None => {},
    }
    match is_match(HEADING_PATTERN, line) {
        Some(true) => {
            return LineEvent::Heading;
        },
        _ => {},
    }
    match first_match_of(TRACKED_PATTERN, line) {
        Some(groups) => {
            let text: String = annotation_text_of(&groups);
            let tags: Vec<String> = match find_all(TAG_PATTERN, text.as_str()) {
                Some(tags) => tags,
                None => Vec::new(),
            };
            assert(tags.deep_view() =~= found_tags(text@));
            let duration: TimeDuration = parse_duration(group_text(&groups, 2));
            LineEvent::Annotation { text, tags, duration }
        },
        None => LineEvent::Other,
    }
}

/// One step of the scanner: from the work item in scope and a line's event to
/// the work item in scope after the line and the record that the line gives.
pub fn step(context: Option<String>, event: LineEvent, sort_tags: bool) -> (r: (
    Option<String>,
    Option<(String, TimeDuration)>,
))
    ensures
        r.0.deep_view() == next_context(context.deep_view(), event@),
        match emitted(context.deep_view(), event@, sort_tags) {
            Some(record) => r.1.is_some() && r.1.unwrap().0@ == record.0 && r.1.unwrap().1
                == record.1,
            None => r.1.is_none(),
        },
{
    match event {
        LineEvent::WorkItem(tag) => (Some(tag), None),
        LineEvent::Heading => (None, None),
        LineEvent::Annotation { text, tags, duration } => {
            let tag_str: String = tag_string_of(tags, &context, sort_tags);
            (context, Some((tag_str, duration)))
        },
        LineEvent::Other => (context, None),
    }
}

/// Scans a document and gives its records in line order. No work item is in
/// scope at the start; nothing is kept from one call to the next.
pub fn parse_time_entries(content: &str, sort_tags: bool) -> (r: Vec<(String, TimeDuration)>)
    ensures
        record_views(r@) == scan(lines_of(content@), None, sort_tags),
{
    let lines: Vec<String> = split_lines(content);
    let mut results: Vec<(String, TimeDuration)> = Vec::new();
    let mut current_pbi: Option<String> = None;
    let mut i: usize = 0;
    let ghost all = lines.deep_view();
    proof {
        assert(all.skip(0) =~= all);
        assert(record_views(results@) =~= Seq::empty());
    }
    while i < lines.len()
        invariant
            i <= lines.len(),
            all == lines.deep_view(),
            record_views(results@) + scan(all.skip(i as int), current_pbi.deep_view(), sort_tags)
                == scan(all, None, sort_tags),
        decreases lines.len() - i,
    {
        let event: LineEvent = read_line(lines[i].as_str());
        let ghost before = record_views(results@);
        let ghost context = current_pbi.deep_view();
        proof {
            assert(all.skip(i as int)[0] == lines@[i as int]@);
            assert(all.skip(i as int).drop_first() =~= all.skip(i + 1));
        }
        let (next, record) = step(current_pbi, event, sort_tags);
        current_pbi = next;
        match record {
            Some(entry) => {
                results.push(entry);
                proof {
                    let made = emitted(context, event@, sort_tags)->0;
                    assert(record_views(results@) =~= before + seq![made]);
                    assert((before + seq![made]) + scan(
                        all.skip(i + 1),
                        current_pbi.deep_view(),
                        sort_tags,
                    ) =~= before + (seq![made] + scan(
                        all.skip(i + 1),
                        current_pbi.deep_view(),
                        sort_tags,
                    )));
                }
            },
            None => {},
        }
        i = i + 1;
    }
    proof {
        assert(all.skip(lines.len() as int) =~= Seq::empty());
        assert(record_views(results@) + Seq::empty() =~= record_views(results@));
    }
    results
}

/// Scanning lines in two parts gives the records of the first part and then
/// those of the second, read under the work item that the first part leaves
/// in scope.
pub proof fn lemma_scan_in_parts(
    first: Seq<Seq<char>>,
    second: Seq<Seq<char>>,
    context: Option<Seq<char>>,
    sort: bool,
)
    ensures
        scan(first + second, context, sort) == scan(first, context, sort) + scan(
            second,
            context_after(first, context),
            sort,
        ),
        context_after(first + second, context) == context_after(
            second,
            context_after(first, context),
        ),
    decreases first.len(),
{
    if first.len() == 0 {
        assert(first + second =~= second);
        assert(scan(first, context, sort) + scan(second, context, sort) =~= scan(
            second,
            context,
            sort,
        ));
    } else {
        let all = first + second;
        let next = next_context(context, line_event(first[0]));
        assert(all[0] == first[0]);
        assert(all.drop_first() =~= first.drop_first() + second);
        lemma_scan_in_parts(first.drop_first(), second, next, sort);
        let tail = scan(first.drop_first(), next, sort);
        let rest = scan(second, context_after(first, context), sort);
        match emitted(context, line_event(first[0]), sort) {
            Some(record) => {
                assert(seq![record] + (tail + rest) =~= (seq![record] + tail) + rest);
            },
            None => {},
        }
    }
}

/// Behind a heading that names no work item, the records do not depend on
/// what was in scope before: none is.
pub proof fn lemma_heading_clears_context(
    heading: Seq<char>,
    rest: Seq<Seq<char>>,
    context: Option<Seq<char>>,
    sort: bool,
)
    requires
        line_event(heading) is Heading,
    ensures
        scan(seq![heading] + rest, context, sort) == scan(rest, None, sort),
{
    let all = seq![heading] + rest;
    assert(all[0] == heading);
    assert(all.drop_first() =~= rest);
}

/// Behind a heading that names a work item, the records are read with that
/// work item in scope, whatever was in scope before.
pub proof fn lemma_heading_sets_context(
    heading: Seq<char>,
    rest: Seq<Seq<char>>,
    context: Option<Seq<char>>,
    sort: bool,
)
    requires
        line_event(heading) is WorkItem,
    ensures
        scan(seq![heading] + rest, context, sort) == scan(
            rest,
            Some(line_event(heading)->WorkItem_0),
            sort,
        ),
{
    let all = seq![heading] + rest;
    assert(all[0] == heading);
    assert(all.drop_first() =~= rest);
}

/// At most one record comes from a line.
pub proof fn lemma_scan_len(lines: Seq<Seq<char>>, context: Option<Seq<char>>, sort: bool)
    ensures
        scan(lines, context, sort).len() <= lines.len(),
    decreases lines.len(),
{
    if lines.len() > 0 {
        lemma_scan_len(lines.drop_first(), next_context(context, line_event(lines[0])), sort);
    }
}

} // verus!

use timetracker::duration::TimeDuration;
use timetracker::scanner::{parse_time_entries, read_line, step, work_item_of, LineEvent};

fn hours(n: u32) -> TimeDuration {
    TimeDuration { hours: n, minutes: 0, seconds: 0 }
}

#[test]
fn test_parse_time_entries_with_sorted_tags() {
    let content = "# Work on [[123]]\n- [ ] Task 1 [ timeTracked: 1h ] #c #a #b\n";
    let entries = parse_time_entries(content, true);
    assert_eq!("#a,#b,#c,#pbi-123", entries[0].0);
}

#[test]
fn test_parse_time_entries_with_unsorted_tags() {
    let content = "# Work on [[123]]\n- [ ] Task 1 [ timeTracked: 1h ] #c #a #b\n";
    let entries = parse_time_entries(content, false);
    assert_eq!("#pbi-123,#c,#a,#b", entries[0].0);
}

#[test]
fn test_parse_time_entries_with_text_before_and_after() {
    let content = r#"
        - [ ] Task 1 [ timeTracked: 1h ] more text
        "#;
    let entries = parse_time_entries(content, true);
    assert_eq!(TimeDuration { hours: 1, minutes: 0, seconds: 0 }, entries[0].1);
}

#[test]
fn scan_work_item_heading_sorted() {
    let content = "# Work on [[123]]\n- [ ] Task 1 [ timeTracked: 1h ] #c #a #b";
    let entries = parse_time_entries(content, true);
    assert_eq!(vec![("#a,#b,#c,#pbi-123".to_string(), hours(1))], entries);
}

#[test]
fn scan_work_item_heading_unsorted() {
    let content = "# Work on [[123]]\n- [ ] Task 1 [ timeTracked: 1h ] #c #a #b";
    let entries = parse_time_entries(content, false);
    assert_eq!(vec![("#pbi-123,#c,#a,#b".to_string(), hours(1))], entries);
}

#[test]
fn scan_line_without_tags_or_work_item_has_empty_tag_string() {
    let entries = parse_time_entries("- [ ] Task 1 [ timeTracked: 1h ] more text", true);
    assert_eq!(vec![("".to_string(), hours(1))], entries);
}

#[test]
fn scan_other_heading_clears_the_work_item() {
    let content = "# Work on [[1]]\n- a [timeTracked: 2h]\n\n# Notes\n- b [timeTracked: 1h30m]";
    let entries = parse_time_entries(content, true);
    assert_eq!(
        vec![
            ("#pbi-1".to_string(), hours(2)),
            ("".to_string(), TimeDuration { hours: 1, minutes: 30, seconds: 0 }),
        ],
        entries
    );
}

#[test]
fn scan_explicit_tag_before_the_clause() {
    let entries = parse_time_entries("- [ ] #pbi-123456 I did a thing [timeTracked: 8h]", true);
    assert_eq!(vec![("#pbi-123456".to_string(), hours(8))], entries);
}

#[test]
fn scan_two_tags_on_one_line() {
    let entries =
        parse_time_entries("- [ ] #pbi-123 hey, remember #pbi-47 [timeTracked: 1h30m]", true);
    assert_eq!(
        vec![("#pbi-123,#pbi-47".to_string(), TimeDuration { hours: 1, minutes: 30, seconds: 0 })],
        entries
    );
}

#[test]
fn scan_work_item_in_several_sections() {
    let content = "# Work on [[123456]]\n- [ ] some work on Task a [timeTracked: 2h]\n\n# Work on [[456789]]\n- [ ] some work on Task b [timeTracked: 1h30m] #pbi-123456\n";
    let entries = parse_time_entries(content, true);
    assert_eq!(
        vec![
            ("#pbi-123456".to_string(), hours(2)),
            (
                "#pbi-123456,#pbi-456789".to_string(),
                TimeDuration { hours: 1, minutes: 30, seconds: 0 }
            ),
        ],
        entries
    );
}

#[test]
fn scan_keeps_no_state_between_calls() {
    let first = parse_time_entries("# Work on [[5]]\n- a [timeTracked: 1h]", true);
    assert_eq!(vec![("#pbi-5".to_string(), hours(1))], first);
    let second = parse_time_entries("- b [timeTracked: 1h]", true);
    assert_eq!(vec![("".to_string(), hours(1))], second);
}

#[test]
fn scan_annotation_without_legible_duration_is_still_a_record() {
    let entries = parse_time_entries("- task [timeTracked: soon] #x", true);
    assert_eq!(vec![("#x".to_string(), TimeDuration::default())], entries);
}

#[test]
fn scan_heading_line_gives_no_record() {
    let entries = parse_time_entries("# Work on [[9]] [timeTracked: 1h]\n## Plan [timeTracked: 2h]", true);
    assert_eq!(Vec::<(String, TimeDuration)>::new(), entries);
    assert_eq!(Vec::<(String, TimeDuration)>::new(), parse_time_entries("", true));
}

#[test]
fn scan_heading_is_read_in_either_case_and_depth() {
    let entries = parse_time_entries("###   WORK ON [[42]] and more\n- a [timeTracked: 1m]", true);
    assert_eq!(vec![("#pbi-42".to_string(), TimeDuration { hours: 0, minutes: 1, seconds: 0 })], entries);
}

#[test]
fn scan_handles_carriage_returns() {
    let entries = parse_time_entries("# Work on [[3]]\r\n- a [timeTracked: 1h] #t\r\n", false);
    assert_eq!(vec![("#pbi-3,#t".to_string(), hours(1))], entries);
}

#[test]
fn read_line_tells_the_four_kinds_apart() {
    match read_line("## Work on [[77]]") {
        LineEvent::WorkItem(tag) => assert_eq!("#pbi-77", tag),
        _ => panic!("not a work-item heading"),
    }
    assert!(matches!(read_line("# Work on [[x]]"), LineEvent::Heading));
    assert!(matches!(read_line("# Notes"), LineEvent::Heading));
    assert!(matches!(read_line("#Notes"), LineEvent::Other));
    assert!(matches!(read_line("plain text #tag"), LineEvent::Other));
    assert!(matches!(read_line("[timeTracked:]"), LineEvent::Other));
    assert!(matches!(read_line("[timetracked: 1h]"), LineEvent::Other));
    match read_line("  before #b [ timeTracked : 2h 5m ] after #a  ") {
        LineEvent::Annotation { text, tags, duration } => {
            assert_eq!("before #b   after #a", text);
            assert_eq!(vec!["#b".to_string(), "#a".to_string()], tags);
            assert_eq!(TimeDuration { hours: 2, minutes: 5, seconds: 0 }, duration);
        }
        _ => panic!("not an annotation"),
    }
}

#[test]
fn read_line_takes_the_first_clause_it_can() {
    match read_line("a [timeTracked: 1h] b [timeTracked: 2h] #t") {
        LineEvent::Annotation { text, tags, duration } => {
            assert_eq!("a   b [timeTracked: 2h] #t", text);
            assert_eq!(vec!["#t".to_string()], tags);
            assert_eq!(hours(1), duration);
        }
        _ => panic!("not an annotation"),
    }
}

#[test]
fn work_item_of_needs_ascii_digits() {
    let found = Some(vec![Some("# Work on [[12]]".to_string()), Some("12".to_string())]);
    assert_eq!(Some("#pbi-12".to_string()), work_item_of(&found));
    let long = Some(vec![None, Some("00123456789012345678901234567890".to_string())]);
    assert_eq!(Some("#pbi-00123456789012345678901234567890".to_string()), work_item_of(&long));
    let other_digits = Some(vec![None, Some("\u{0663}".to_string())]);
    assert_eq!(None, work_item_of(&other_digits));
    assert_eq!(None, work_item_of(&Some(vec![Some("x".to_string()), None])));
    assert_eq!(None, work_item_of(&Some(vec![Some("x".to_string())])));
    assert_eq!(None, work_item_of(&Some(vec![None, Some("".to_string())])));
    assert_eq!(None, work_item_of(&None));
}

#[test]
fn scan_heading_with_other_digits_is_a_plain_heading() {
    let content = "# Work on [[1]]\n# Work on [[\u{0663}]]\n- a [timeTracked: 1h]";
    assert_eq!(vec![("".to_string(), hours(1))], parse_time_entries(content, true));
}

#[test]
fn step_follows_the_state_machine() {
    let (context, record) = step(None, LineEvent::WorkItem("#pbi-1".to_string()), true);
    assert_eq!(Some("#pbi-1".to_string()), context);
    assert_eq!(None, record);

    let event = LineEvent::Annotation {
        text: "#b and #a".to_string(),
        tags: vec!["#b".to_string(), "#a".to_string()],
        duration: hours(2),
    };
    let (context, record) = step(context, event, true);
    assert_eq!(Some("#pbi-1".to_string()), context);
    assert_eq!(Some(("#a,#b,#pbi-1".to_string(), hours(2))), record);

    let (context, record) = step(context, LineEvent::Other, true);
    assert_eq!(Some("#pbi-1".to_string()), context);
    assert_eq!(None, record);

    let (context, record) = step(context, LineEvent::Heading, true);
    assert_eq!(None, context);
    assert_eq!(None, record);

    let event = LineEvent::Annotation {
        text: "#b and #a".to_string(),
        tags: vec!["#b".to_string(), "#a".to_string()],
        duration: hours(3),
    };
    let (context, record) = step(context, event, false);
    assert_eq!(None, context);
    assert_eq!(Some(("#b,#a".to_string(), hours(3))), record);
}

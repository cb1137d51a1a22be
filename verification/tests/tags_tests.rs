use timetracker::tags::{
    extract_tags, join_comma, lex_le_exec, sort_tags, tag_string_of, with_context,
};

fn strings(items: &[&str]) -> Vec<String> {
    items.iter().map(|s| s.to_string()).collect()
}

#[test]
fn test_extract_tags_with_pbi() {
    let task_text = "Complete task #tag1 #tag2";
    let current_pbi = Some("#pbi-123".to_string());
    let tags = extract_tags(task_text, &current_pbi, false);
    assert_eq!("#pbi-123,#tag1,#tag2", tags);
}

#[test]
fn test_extract_tags_ordered() {
    let task_text = "this #c is a task #a with unordered tags #b";
    let current_pbi = None;
    let tags = extract_tags(task_text, &current_pbi, true);
    assert_eq!("#a,#b,#c", tags);
}

#[test]
fn test_extract_tags_without_pbi() {
    let task_text = "Complete task #tag1 #tag2";
    let current_pbi = None;
    let tags = extract_tags(task_text, &current_pbi, false);
    assert_eq!("#tag1,#tag2", tags);
}

#[test]
fn test_extract_tags_no_tags_with_pbi() {
    let task_text = "Complete task";
    let current_pbi = Some("#pbi-123".to_string());
    let tags = extract_tags(task_text, &current_pbi, false);
    assert_eq!("#pbi-123", tags);
}

#[test]
fn test_extract_tags_no_tags_no_pbi() {
    let task_text = "Complete task";
    let current_pbi = None;
    let tags = extract_tags(task_text, &current_pbi, false);
    assert_eq!("", tags);
}

#[test]
fn test_extract_tags_sorted() {
    let task_text = "this #c is a task #a with unordered tags #b";
    let current_pbi = None;
    let tags = extract_tags(task_text, &current_pbi, true);
    assert_eq!(tags, "#a,#b,#c");
}

#[test]
fn test_extract_tags_unsorted() {
    let task_text = "this #c is a task #a with unordered tags #b";
    let current_pbi = None;
    let tags = extract_tags(task_text, &current_pbi, false);
    assert_eq!(tags, "#c,#a,#b");
}

#[test]
fn extract_tags_keeps_repeated_tags() {
    assert_eq!("#a,#b,#a", extract_tags("#a then #b then #a", &None, false));
    assert_eq!("#a,#a,#b", extract_tags("#a then #b then #a", &None, true));
}

#[test]
fn extract_tags_does_not_repeat_the_work_item() {
    let context = Some("#pbi-7".to_string());
    assert_eq!("#x,#pbi-7", extract_tags("#x see #pbi-7", &context, false));
    assert_eq!("#pbi-7,#x", extract_tags("#x see #pbi-7", &context, true));
    assert_eq!("#pbi-7,#x,#pbi-70", extract_tags("#x see #pbi-70", &context, false));
}

#[test]
fn extract_tags_reads_the_whole_tag_class() {
    assert_eq!("#a_b-9,#Z", extract_tags("(#a_b-9) #Z! # #", &None, false));
}

#[test]
fn sorting_a_sorted_tag_string_changes_nothing() {
    let once = sort_tags(strings(&["#c", "#a", "#pbi-1", "#b", "#a"]));
    assert_eq!(strings(&["#a", "#a", "#b", "#c", "#pbi-1"]), once);
    let twice = sort_tags(once.clone());
    assert_eq!(once, twice);
    assert_eq!(join_comma(&once), join_comma(&twice));
}

#[test]
fn sort_tags_orders_as_strings_do() {
    let mut expected = strings(&["#b", "#B", "#ab", "#a", "#_", "#-", "#1", "#a-", "#é", "#z", ""]);
    let got = sort_tags(expected.clone());
    expected.sort();
    assert_eq!(expected, got);
    assert_eq!(Vec::<String>::new(), sort_tags(Vec::new()));
}

#[test]
fn lex_le_exec_is_the_order_of_strings() {
    let samples = ["", "#", "#a", "#ab", "#b", "#B", "#é", "#z", "#pbi-1", "#pbi-10"];
    for a in samples.iter() {
        for b in samples.iter() {
            assert_eq!(a <= b, lex_le_exec(a, b));
        }
    }
}

#[test]
fn with_context_puts_the_work_item_in_front() {
    let context = Some("#pbi-1".to_string());
    assert_eq!(strings(&["#pbi-1", "#b", "#a"]), with_context(strings(&["#b", "#a"]), &context));
    assert_eq!(strings(&["#b", "#pbi-1"]), with_context(strings(&["#b", "#pbi-1"]), &context));
    assert_eq!(strings(&["#pbi-1"]), with_context(Vec::new(), &context));
    assert_eq!(strings(&["#b", "#a"]), with_context(strings(&["#b", "#a"]), &None));
}

#[test]
fn join_comma_joins() {
    assert_eq!("", join_comma(&Vec::new()));
    assert_eq!("#a", join_comma(&strings(&["#a"])));
    assert_eq!("#a,#b,#c", join_comma(&strings(&["#a", "#b", "#c"])));
    assert_eq!(",", join_comma(&strings(&["", ""])));
}

#[test]
fn tag_string_of_found_tags() {
    let context = Some("#pbi-123".to_string());
    assert_eq!("#a,#b,#c,#pbi-123", tag_string_of(strings(&["#c", "#a", "#b"]), &context, true));
    assert_eq!("#pbi-123,#c,#a,#b", tag_string_of(strings(&["#c", "#a", "#b"]), &context, false));
    assert_eq!("", tag_string_of(Vec::new(), &None, true));
}

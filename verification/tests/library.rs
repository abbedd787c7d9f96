use todo_dep_tracker::codec::{decode, encode};
use todo_dep_tracker::command::{apply_command, parse_index, CmdOutcome};
use todo_dep_tracker::task::TodoItem;

fn leaf(title: &str) -> TodoItem {
    TodoItem::new(title.to_string())
}

fn node(title: &str, completed: bool, children: Vec<TodoItem>) -> TodoItem {
    TodoItem { title: title.to_string(), details: String::new(), completed, children }
}

fn task_eq(a: &TodoItem, b: &TodoItem) -> bool {
    a.title == b.title && a.details == b.details && a.completed == b.completed
        && a.children.len() == b.children.len()
        && a.children.iter().zip(b.children.iter()).all(|(x, y)| task_eq(x, y))
}

fn forest_eq(a: &[TodoItem], b: &[TodoItem]) -> bool {
    a.len() == b.len() && a.iter().zip(b.iter()).all(|(x, y)| task_eq(x, y))
}

fn all_done(t: &TodoItem) -> bool {
    t.completed && t.children.iter().all(all_done)
}

#[test]
fn encode_empty_forest() {
    assert_eq!(encode(&Vec::new()), "[]\n");
}

#[test]
fn encode_one_leaf_exact() {
    let forest = vec![leaf("A")];
    let expected = "[\n  {\n    \"title\": \"A\",\n    \"details\": \"\",\n    \
                    \"completed\": false,\n    \"children\": []\n  }\n]\n";
    assert_eq!(encode(&forest), expected);
}

#[test]
fn round_trip_empty() {
    let forest: Vec<TodoItem> = Vec::new();
    let back = decode(&encode(&forest)).unwrap();
    assert!(forest_eq(&forest, &back));
}

#[test]
fn round_trip_nested_and_unicode() {
    let mut inner = leaf("héllo ✓ 世界");
    inner.details = "line one\nline two\ttabbed \"quoted\" back\\slash".to_string();
    inner.completed = true;
    let forest = vec![
        node("parent", false, vec![node("mid", true, vec![inner])]),
        leaf("plain"),
    ];
    let text = encode(&forest);
    let back = decode(&text).unwrap();
    assert!(forest_eq(&forest, &back));
}

#[test]
fn round_trip_control_characters() {
    let mut t = leaf("ctl");
    t.details = "a\u{1}b\u{1f}c\u{8}d\u{c}e\rf".to_string();
    let forest = vec![t];
    let back = decode(&encode(&forest)).unwrap();
    assert!(forest_eq(&forest, &back));
}

#[test]
fn round_trip_deep_chain() {
    let mut t = leaf("level6");
    for i in (0..6).rev() {
        t = node(&format!("level{}", i), false, vec![t]);
    }
    let forest = vec![t];
    let back = decode(&encode(&forest)).unwrap();
    assert!(forest_eq(&forest, &back));
}

#[test]
fn decode_not_json_fails() {
    assert!(decode("not json").is_err());
}

#[test]
fn decode_rejects_malformed() {
    assert!(decode("").is_err());
    assert!(decode("[").is_err());
    assert!(decode("{}").is_err());
    assert!(decode("[]x").is_err());
    assert!(decode("[{\"title\": \"A\"}]").is_err());
    assert!(decode(
        "[{\"title\": \"A\", \"details\": \"\", \"completed\": false, \"children\": [], \
         \"extra\": 1}]"
    )
    .is_err());
    assert!(decode(
        "[{\"title\": \"A\", \"title\": \"B\", \"details\": \"\", \"completed\": false, \
         \"children\": []}]"
    )
    .is_err());
    assert!(decode(
        "[{\"title\": \"A\", \"details\": \"\", \"completed\": 1, \"children\": []}]"
    )
    .is_err());
}

#[test]
fn decode_accepts_any_field_order_and_escapes() {
    let text = "[{\"children\": [], \"completed\": true, \"details\": \"a\\nb\\u0041\\t\", \
                \"title\": \"x\\\"y\\\\z\"}]";
    let forest = decode(text).unwrap();
    assert_eq!(forest.len(), 1);
    assert_eq!(forest[0].title, "x\"y\\z");
    assert_eq!(forest[0].details, "a\nbA\t");
    assert!(forest[0].completed);
    assert!(forest[0].children.is_empty());
}

#[test]
fn decode_surrogate_pair_escape() {
    let text = "[{\"title\": \"\\uD83D\\uDE00\", \"details\": \"\", \"completed\": false, \
                \"children\": []}]";
    let forest = decode(text).unwrap();
    assert_eq!(forest[0].title, "\u{1F600}");
}

#[test]
fn decode_rejects_surrogate_escape() {
    let text = "[{\"title\": \"\\uD800\", \"details\": \"\", \"completed\": false, \
                \"children\": []}]";
    assert!(decode(text).is_err());
}

#[test]
fn complete_cascades_whole_subtree() {
    let mut t = node(
        "root",
        false,
        vec![node("a", false, vec![leaf("a1"), leaf("a2")]), leaf("b")],
    );
    t.complete();
    assert!(all_done(&t));
}

#[test]
fn complete_leaves_siblings_alone() {
    let mut forest = vec![leaf("A"), node("B", false, vec![leaf("b1")])];
    let out = apply_command(&mut forest, "c1\n");
    assert_eq!(out, CmdOutcome::Completed(1));
    assert!(!forest[0].completed);
    assert!(all_done(&forest[1]));
}

#[test]
fn render_leaf_lines() {
    assert_eq!(leaf("A").render(), "[ ] A\n");
    let mut t = leaf("B");
    t.completed = true;
    assert_eq!(t.render(), "[x] B\n");
}

#[test]
fn render_indents_children() {
    let t = node("p", false, vec![node("c", true, vec![leaf("g")])]);
    assert_eq!(t.render(), "[ ] p\n    [x] c\n        [ ] g\n");
}

#[test]
fn render_caps_depth_but_data_stays() {
    let mut t = leaf("level6");
    for i in (0..6).rev() {
        t = node(&format!("level{}", i), false, vec![t]);
    }
    let rendered = t.render();
    assert_eq!(rendered.lines().count(), 6);
    assert!(!rendered.contains("level6"));
    let text = encode(&vec![t]);
    assert!(text.contains("level6"));
}

#[test]
fn fmt_with_indentation_offsets() {
    let t = leaf("A");
    let mut s = String::new();
    t.fmt_with_indentation(&mut s, 2);
    assert_eq!(s, "        [ ] A\n");
}

#[test]
fn add_command_appends_trimmed_title() {
    let mut forest = vec![leaf("A")];
    let out = apply_command(&mut forest, "+  new task \n");
    assert_eq!(out, CmdOutcome::Added);
    assert_eq!(forest.len(), 2);
    assert_eq!(forest[1].title, "new task");
    assert_eq!(forest[1].details, "");
    assert!(!forest[1].completed);
    assert!(forest[1].children.is_empty());
}

#[test]
fn delete_shifts_indices() {
    let mut forest = vec![leaf("A"), leaf("B"), leaf("C")];
    let out = apply_command(&mut forest, "d1\n");
    assert_eq!(out, CmdOutcome::Deleted(1));
    assert_eq!(forest.len(), 2);
    assert_eq!(forest[0].title, "A");
    assert_eq!(forest[1].title, "C");
    let out2 = apply_command(&mut forest, "c0\n");
    assert_eq!(out2, CmdOutcome::Completed(0));
    assert!(forest[0].completed);
    assert!(!forest[1].completed);
}

#[test]
fn out_of_range_and_parse_errors_leave_forest_alone() {
    let mut forest = vec![leaf("A")];
    assert_eq!(apply_command(&mut forest, "d5\n"), CmdOutcome::DeleteOutOfRange);
    assert_eq!(forest.len(), 1);
    assert_eq!(forest[0].title, "A");
    assert_eq!(apply_command(&mut forest, "dx\n"), CmdOutcome::DeleteParseError);
    assert_eq!(forest.len(), 1);
    assert_eq!(forest[0].title, "A");
    assert_eq!(apply_command(&mut forest, "c9\n"), CmdOutcome::CompleteOutOfRange);
    assert_eq!(apply_command(&mut forest, "c?\n"), CmdOutcome::CompleteParseError);
    assert!(!forest[0].completed);
}

#[test]
fn other_commands_report_without_touching_the_forest() {
    let mut forest = vec![leaf("A")];
    assert_eq!(apply_command(&mut forest, ""), CmdOutcome::Empty);
    assert_eq!(apply_command(&mut forest, "q\n"), CmdOutcome::Quit);
    assert_eq!(apply_command(&mut forest, "z whatever\n"), CmdOutcome::Unknown('z'));
    assert_eq!(forest.len(), 1);
    assert_eq!(forest[0].title, "A");
}

#[test]
fn parse_index_accepts_plain_and_signed_digits() {
    assert_eq!(parse_index("7"), Some(7));
    assert_eq!(parse_index("007"), Some(7));
    assert_eq!(parse_index("+12"), Some(12));
    assert_eq!(parse_index("0"), Some(0));
}

#[test]
fn parse_index_rejects_bad_input() {
    assert_eq!(parse_index(""), None);
    assert_eq!(parse_index("+"), None);
    assert_eq!(parse_index("-1"), None);
    assert_eq!(parse_index("1a"), None);
    assert_eq!(parse_index("99999999999999999999999999999999"), None);
}

#[test]
fn complete_twice_is_harmless() {
    let mut t = node("root", false, vec![leaf("a")]);
    t.complete();
    t.complete();
    assert!(all_done(&t));
    assert_eq!(t.children.len(), 1);
    assert_eq!(t.children[0].title, "a");
}

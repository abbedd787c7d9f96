//! The persisted documents must remain ordinary JSON: what this library
//! writes parses with a stock JSON parser, and what a stock JSON writer
//! produces for the same shape loads back.

use serde_json::Value;
use todo_dep_tracker::codec::{decode, encode};
use todo_dep_tracker::task::TodoItem;

fn leaf(title: &str) -> TodoItem {
    TodoItem::new(title.to_string())
}

#[test]
fn encoded_document_is_valid_json() {
    let mut child = leaf("child ✓");
    child.details = "with \"quotes\" and\nnewlines".to_string();
    let forest = vec![TodoItem {
        title: "root".to_string(),
        details: String::new(),
        completed: true,
        children: vec![child],
    }];
    let text = encode(&forest);
    let v: Value = serde_json::from_str(&text).unwrap();
    let arr = v.as_array().unwrap();
    assert_eq!(arr.len(), 1);
    assert_eq!(arr[0]["title"].as_str().unwrap(), "root");
    assert_eq!(arr[0]["completed"].as_bool().unwrap(), true);
    let kids = arr[0]["children"].as_array().unwrap();
    assert_eq!(kids.len(), 1);
    assert_eq!(kids[0]["title"].as_str().unwrap(), "child ✓");
    assert_eq!(kids[0]["details"].as_str().unwrap(), "with \"quotes\" and\nnewlines");
    assert_eq!(kids[0]["completed"].as_bool().unwrap(), false);
    assert_eq!(kids[0]["children"].as_array().unwrap().len(), 0);
}

#[test]
fn stock_json_writer_output_decodes() {
    let mut obj = serde_json::Map::new();
    obj.insert("title".to_string(), Value::String("from stock writer".to_string()));
    obj.insert("details".to_string(), Value::String("d \u{1f600} déjà".to_string()));
    obj.insert("completed".to_string(), Value::Bool(true));
    obj.insert("children".to_string(), Value::Array(Vec::new()));
    let doc = Value::Array(vec![Value::Object(obj)]);
    let text = serde_json::to_string_pretty(&doc).unwrap();
    let forest = decode(&text).unwrap();
    assert_eq!(forest.len(), 1);
    assert_eq!(forest[0].title, "from stock writer");
    assert_eq!(forest[0].details, "d \u{1f600} déjà");
    assert!(forest[0].completed);
    assert!(forest[0].children.is_empty());
}

#[test]
fn compact_json_decodes_too() {
    let mut obj = serde_json::Map::new();
    obj.insert("title".to_string(), Value::String("compact".to_string()));
    obj.insert("details".to_string(), Value::String(String::new()));
    obj.insert("completed".to_string(), Value::Bool(false));
    obj.insert("children".to_string(), Value::Array(Vec::new()));
    let doc = Value::Array(vec![Value::Object(obj)]);
    let text = serde_json::to_string(&doc).unwrap();
    let forest = decode(&text).unwrap();
    assert_eq!(forest.len(), 1);
    assert_eq!(forest[0].title, "compact");
}

use todolist::store::LoadError;
use todolist::store::ToDoList;

fn pairs(l: &ToDoList) -> Vec<(String, String)> {
    l.list
        .iter()
        .map(|t| (t.name.clone(), t.status.clone()))
        .collect()
}

#[test]
fn save_writes_one_task_per_line() {
    let mut l = ToDoList::new();
    l.add("a");
    assert_eq!(l.save(), "[\n{\"name\":\"a\",\"status\":\"waiting!\"}\n]");
}

#[test]
fn save_of_empty_list_is_empty_array() {
    let l = ToDoList::new();
    assert_eq!(l.save(), "[]");
}

#[test]
fn save_separates_tasks_with_commas() {
    let mut l = ToDoList::new();
    l.add("a");
    l.add("b");
    l.done("b");
    assert_eq!(
        l.save(),
        "[\n{\"name\":\"a\",\"status\":\"waiting!\"},\n{\"name\":\"b\",\"status\":\"complete\"}\n]"
    );
}

#[test]
fn save_escapes_quotes_backslashes_and_controls() {
    let mut l = ToDoList::new();
    l.add("say \"hi\"");
    l.add("back\\slash");
    l.add("line\nbreak");
    let text = l.save();
    assert!(text.contains("say \\\"hi\\\""));
    assert!(text.contains("back\\\\slash"));
    assert!(text.contains("line\\u000abreak"));
}

#[test]
fn round_trip_preserves_names_and_statuses() {
    let mut l = ToDoList::new();
    l.add("plain");
    l.add("say \"hi\"");
    l.add("back\\slash");
    l.add("tab\tand\nnewline");
    l.add("unicode: ώ λ ❤");
    l.process("plain");
    l.done("say \"hi\"");
    let text = l.save();
    let reloaded = ToDoList::load(&text).expect("saved text must load");
    assert_eq!(pairs(&l), pairs(&reloaded));
}

#[test]
fn round_trip_of_empty_list() {
    let l = ToDoList::new();
    let reloaded = ToDoList::load(&l.save()).expect("saved text must load");
    assert_eq!(reloaded.list.len(), 0);
}

#[test]
fn load_of_empty_text_is_empty_list() {
    let l = ToDoList::load("").expect("empty text must load");
    assert_eq!(l.list.len(), 0);
}

#[test]
fn load_of_garbage_is_malformed() {
    assert!(matches!(
        ToDoList::load("not json at all"),
        Err(LoadError::Malformed)
    ));
}

#[test]
fn load_of_truncated_text_is_malformed() {
    let mut l = ToDoList::new();
    l.add("a");
    let mut text = l.save();
    text.pop();
    assert!(matches!(ToDoList::load(&text), Err(LoadError::Malformed)));
}

#[test]
fn load_rejects_unescaped_control_characters() {
    assert!(matches!(
        ToDoList::load("[\n{\"name\":\"a\nb\",\"status\":\"waiting!\"}\n]"),
        Err(LoadError::Malformed)
    ));
}

#[test]
fn load_decodes_escapes() {
    let text = "[\n{\"name\":\"say \\\"hi\\\"\",\"status\":\"a\\\\b\"},\n{\"name\":\"nl\\u000a\",\"status\":\"waiting!\"}\n]";
    let l = ToDoList::load(text).expect("canonical text must load");
    assert_eq!(l.list.len(), 2);
    assert_eq!(l.list[0].name, "say \"hi\"");
    assert_eq!(l.list[0].status, "a\\b");
    assert_eq!(l.list[1].name, "nl\n");
    assert_eq!(l.list[1].status, "waiting!");
}

use todolist::parse::ToDoActions;
use todolist::store::ToDoList;

#[test]
fn parse_add_with_argument() {
    let l = ToDoList::new();
    let (action, arg) = l.read_input(String::from("add:buy milk"));
    assert_eq!(action, ToDoActions::Add);
    assert_eq!(arg, "buy milk");
}

#[test]
fn parse_status_without_argument() {
    let l = ToDoList::new();
    let (action, arg) = l.read_input(String::from("status"));
    assert_eq!(action, ToDoActions::Status);
    assert_eq!(arg, "");
}

#[test]
fn parse_unknown_keyword_keeps_argument() {
    let l = ToDoList::new();
    let (action, arg) = l.read_input(String::from("foo:bar"));
    assert_eq!(action, ToDoActions::Unknown);
    assert_eq!(arg, "bar");
}

#[test]
fn parse_empty_line_is_unknown() {
    let l = ToDoList::new();
    let (action, arg) = l.read_input(String::from(""));
    assert_eq!(action, ToDoActions::Unknown);
    assert_eq!(arg, "");
}

#[test]
fn parse_keyword_is_lower_cased() {
    let l = ToDoList::new();
    let (action, arg) = l.read_input(String::from("DONE:report"));
    assert_eq!(action, ToDoActions::Done);
    assert_eq!(arg, "report");
}

#[test]
fn parse_keyword_only_has_empty_argument() {
    let l = ToDoList::new();
    let (action, arg) = l.read_input(String::from("add"));
    assert_eq!(action, ToDoActions::Add);
    assert_eq!(arg, "");
}

#[test]
fn parse_trailing_colon_has_empty_argument() {
    let l = ToDoList::new();
    let (action, arg) = l.read_input(String::from("remove:"));
    assert_eq!(action, ToDoActions::Remove);
    assert_eq!(arg, "");
}

#[test]
fn parse_every_keyword() {
    let l = ToDoList::new();
    assert_eq!(l.read_input(String::from("add:x")).0, ToDoActions::Add);
    assert_eq!(l.read_input(String::from("process:x")).0, ToDoActions::Process);
    assert_eq!(l.read_input(String::from("pause:x")).0, ToDoActions::Pause);
    assert_eq!(l.read_input(String::from("done:x")).0, ToDoActions::Done);
    assert_eq!(l.read_input(String::from("remove:x")).0, ToDoActions::Remove);
    assert_eq!(l.read_input(String::from("status")).0, ToDoActions::Status);
    assert_eq!(l.read_input(String::from("help")).0, ToDoActions::Help);
    assert_eq!(l.read_input(String::from("exit")).0, ToDoActions::Exit);
}

#[test]
fn parse_splits_at_first_colon_only() {
    let l = ToDoList::new();
    let (action, arg) = l.read_input(String::from("add:a:b:c"));
    assert_eq!(action, ToDoActions::Add);
    assert_eq!(arg, "a:b:c");
}

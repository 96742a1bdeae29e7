use todolist::parse::ToDoActions;
use todolist::store::ToDoList;

#[test]
fn adds_show_in_status_in_insertion_order() {
    let mut l = ToDoList::new();
    l.add("a");
    l.add("b");
    l.add("c");
    let lines = l.status();
    assert_eq!(lines.len(), 3);
    assert_eq!(lines[0], format!("{:<20} {}", "waiting!", "a"));
    assert_eq!(lines[1], format!("{:<20} {}", "waiting!", "b"));
    assert_eq!(lines[2], format!("{:<20} {}", "waiting!", "c"));
}

#[test]
fn set_status_without_match_changes_nothing() {
    let mut l = ToDoList::new();
    l.add("a");
    l.add("b");
    l.process("missing");
    assert_eq!(l.list.len(), 2);
    assert_eq!(l.list[0].name, "a");
    assert_eq!(l.list[0].status, "waiting!");
    assert_eq!(l.list[1].name, "b");
    assert_eq!(l.list[1].status, "waiting!");
}

#[test]
fn set_status_updates_every_duplicate() {
    let mut l = ToDoList::new();
    l.add("a");
    l.add("b");
    l.add("a");
    l.done("a");
    assert_eq!(l.list.len(), 3);
    assert_eq!(l.list[0].name, "a");
    assert_eq!(l.list[0].status, "complete");
    assert_eq!(l.list[1].name, "b");
    assert_eq!(l.list[1].status, "waiting!");
    assert_eq!(l.list[2].name, "a");
    assert_eq!(l.list[2].status, "complete");
}

#[test]
fn process_pause_done_set_their_statuses() {
    let mut l = ToDoList::new();
    l.add("a");
    l.process("a");
    assert_eq!(l.list[0].status, "progress");
    l.pause("a");
    assert_eq!(l.list[0].status, "pausing!");
    l.done("a");
    assert_eq!(l.list[0].status, "complete");
}

#[test]
fn remove_deletes_all_matches_and_keeps_order() {
    let mut l = ToDoList::new();
    l.add("a");
    l.add("b");
    l.add("a");
    l.add("c");
    l.remove("a");
    assert_eq!(l.list.len(), 2);
    assert_eq!(l.list[0].name, "b");
    assert_eq!(l.list[1].name, "c");
}

#[test]
fn remove_twice_is_idempotent() {
    let mut l = ToDoList::new();
    l.add("a");
    l.add("b");
    l.remove("a");
    let after_first: Vec<(String, String)> = l
        .list
        .iter()
        .map(|t| (t.name.clone(), t.status.clone()))
        .collect();
    l.remove("a");
    let after_second: Vec<(String, String)> = l
        .list
        .iter()
        .map(|t| (t.name.clone(), t.status.clone()))
        .collect();
    assert_eq!(after_first, after_second);
}

#[test]
fn remove_without_match_changes_nothing() {
    let mut l = ToDoList::new();
    l.add("a");
    l.remove("zzz");
    assert_eq!(l.list.len(), 1);
    assert_eq!(l.list[0].name, "a");
}

#[test]
fn status_pads_to_twenty_characters() {
    let mut l = ToDoList::new();
    l.add("task");
    l.process("task");
    let lines = l.status();
    assert_eq!(lines[0], "progress             task");
}

#[test]
fn help_lists_the_eight_actions() {
    let l = ToDoList::new();
    let lines = l.help();
    assert_eq!(lines.len(), 8);
    assert_eq!(
        lines[0],
        format!("{: <15} {}", "add: <foo>", "add the <foo> to the list of todolist")
    );
    assert_eq!(
        lines[7],
        format!("{: <15} {}", "exit", "the way you exit the application")
    );
}

#[test]
fn end_to_end_command_sequence() {
    let mut l = ToDoList::new();
    for line in ["add:a", "add:b", "done:a", "remove:b", "status"] {
        let (action, arg) = l.read_input(String::from(line));
        match action {
            ToDoActions::Add => l.add(&arg),
            ToDoActions::Process => l.process(&arg),
            ToDoActions::Pause => l.pause(&arg),
            ToDoActions::Done => l.done(&arg),
            ToDoActions::Remove => l.remove(&arg),
            ToDoActions::Status => {
                let lines = l.status();
                assert_eq!(lines.len(), 1);
                assert_eq!(lines[0], format!("{:<20} {}", "complete", "a"));
            }
            _ => panic!("unexpected action"),
        }
    }
    assert_eq!(l.list.len(), 1);
    assert_eq!(l.list[0].name, "a");
    assert_eq!(l.list[0].status, "complete");
}

use tdo_export::export::{gen_tasks_mail, gen_tasks_md};
use tdo_export::identity::gecos_display_name;
use tdo_export::tasks::{Tdo, Todo, TodoList};

fn task(id: u32, name: &str, done: bool) -> Todo {
    Todo { id, name: name.to_string(), done, github: None }
}

fn list(name: &str, tasks: Vec<Todo>) -> TodoList {
    TodoList { name: name.to_string(), list: tasks }
}

#[test]
fn mail_of_empty_collection_is_none() {
    let tdo = Tdo { lists: vec![] };
    assert!(gen_tasks_mail(&tdo).is_none());
}

#[test]
fn mail_with_zero_undone_tasks_is_none() {
    let tdo = Tdo {
        lists: vec![
            list("Groceries", vec![task(1, "Buy milk", true), task(2, "Buy eggs", true)]),
            list("Chores", vec![task(3, "Sweep", true)]),
        ],
    };
    assert!(gen_tasks_mail(&tdo).is_none());
}

#[test]
fn mail_names_each_list_with_an_undone_task() {
    let tdo = Tdo {
        lists: vec![
            list("Groceries", vec![task(1, "Buy milk", false)]),
            list("Done stuff", vec![task(2, "Old", true)]),
        ],
    };
    let text = gen_tasks_mail(&tdo).unwrap();
    assert!(text.contains("Groceries"));
    assert!(text.contains("------------------------------------------------------------"));
    assert!(!text.contains("Done stuff"));
}

#[test]
fn mail_keeps_the_source_selection_policy() {
    // The source emits a task line only for entries of the undone set
    // whose done flag is set; an undone set built from cleared flags thus
    // yields headers without task lines.
    let tdo = Tdo { lists: vec![list("Groceries", vec![task(1, "Buy milk", false)])] };
    let text = gen_tasks_mail(&tdo).unwrap();
    assert!(text.contains("Groceries"));
    assert!(!text.contains("Buy milk"));
}

#[test]
fn md_of_empty_collection_is_none() {
    let tdo = Tdo { lists: vec![] };
    assert!(gen_tasks_md(&tdo, false, None).is_none());
    assert!(gen_tasks_md(&tdo, true, None).is_none());
}

#[test]
fn md_omits_all_done_list_without_list_done() {
    let tdo = Tdo {
        lists: vec![
            list("Open", vec![task(1, "Write", false)]),
            list("Closed", vec![task(2, "Shipped", true)]),
        ],
    };
    let text = gen_tasks_md(&tdo, false, None).unwrap();
    assert!(text.contains("### Open"));
    assert!(text.contains("- [ ] Write\n"));
    assert!(!text.contains("### Closed"));
    assert!(!text.contains("Shipped"));
}

#[test]
fn md_all_done_single_list_without_list_done_is_none() {
    let tdo = Tdo { lists: vec![list("Closed", vec![task(2, "Shipped", true)])] };
    assert!(gen_tasks_md(&tdo, false, None).is_none());
}

#[test]
fn md_with_list_done_keeps_empty_list_heading_without_lines() {
    let tdo = Tdo { lists: vec![list("Empty", vec![])] };
    let text = gen_tasks_md(&tdo, true, None).unwrap();
    assert!(text.contains("### Empty"));
    assert!(!text.contains("- ["));
}

#[test]
fn md_with_list_done_marks_done_tasks() {
    let tdo = Tdo {
        lists: vec![list("Mixed", vec![task(1, "Open one", false), task(2, "Done one", true)])],
    };
    let text = gen_tasks_md(&tdo, true, None).unwrap();
    assert!(text.starts_with("# Your tasks\n\n"));
    assert!(text.contains("### Mixed"));
    assert!(text.contains("- [ ] Open one\n"));
    assert!(text.contains("- [x] Done one\n"));
}

#[test]
fn md_greets_the_named_user() {
    let tdo = Tdo { lists: vec![list("Open", vec![task(1, "Write", false)])] };
    let text = gen_tasks_md(&tdo, false, Some("Jane Doe")).unwrap();
    assert!(text.contains("Here are the tasks for Jane Doe\n\n"));
    let anon = gen_tasks_md(&tdo, false, None).unwrap();
    assert!(!anon.contains("Here are the tasks for"));
}

#[test]
fn list_undone_keeps_only_cleared_flags_in_order() {
    let l = list(
        "Mixed",
        vec![task(1, "a", false), task(2, "b", true), task(3, "c", false)],
    );
    let undone = l.list_undone();
    assert_eq!(undone.len(), 2);
    assert_eq!(undone[0].name, "a");
    assert_eq!(undone[1].name, "c");
    let all = l.list_all();
    assert_eq!(all.len(), 3);
    assert_eq!(all[1].name, "b");
}

#[test]
fn gecos_takes_the_first_field() {
    assert_eq!(gecos_display_name("Jane Doe,Room 1,555").unwrap(), "Jane Doe");
    assert_eq!(gecos_display_name("Solo").unwrap(), "Solo");
}

#[test]
fn gecos_empty_name_is_none() {
    assert!(gecos_display_name("").is_none());
    assert!(gecos_display_name(",office,phone").is_none());
}

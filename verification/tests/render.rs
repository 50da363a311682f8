use tdo_export::errors::ExportError;
use tdo_export::render::render_terminal_output;
use tdo_export::tasks::{Tdo, Todo, TodoList};

fn task(id: u32, name: &str, done: bool) -> Todo {
    Todo { id, name: name.to_string(), done, github: None }
}

fn list(name: &str, tasks: Vec<Todo>) -> TodoList {
    TodoList { name: name.to_string(), list: tasks }
}

#[test]
fn too_narrow_terminal_is_fatal_and_renders_nothing() {
    let tdo = Tdo { lists: vec![list("Groceries", vec![task(1, "Buy milk", false)])] };
    // Highest id 1 needs one digit: ten columns leave no budget at all.
    assert!(matches!(render_terminal_output(&tdo, true, 10), Err(ExportError::InvalidWidth)));
    assert!(matches!(render_terminal_output(&tdo, true, 0), Err(ExportError::InvalidWidth)));
    assert!(matches!(render_terminal_output(&tdo, true, 9), Err(ExportError::InvalidWidth)));
    // Eleven columns leave a budget of one and succeed.
    assert!(render_terminal_output(&tdo, true, 11).is_ok());
}

#[test]
fn empty_collection_renders_zero_rows() {
    let tdo = Tdo { lists: vec![] };
    let rows = render_terminal_output(&tdo, true, 80).unwrap();
    assert!(rows.is_none());
}

#[test]
fn one_list_renders_header_task_and_separator() {
    let tdo = Tdo {
        lists: vec![list("Groceries", vec![task(7, "Buy milk", false), task(2, "Pay rent", true)])],
    };
    let rows = render_terminal_output(&tdo, true, 30).unwrap().unwrap();
    assert_eq!(rows.len(), 4);
    assert_eq!(rows[0].status, "###");
    assert_eq!(rows[0].id, " ");
    assert_eq!(rows[0].text, "Groceries");
    assert_eq!(rows[1].status, "[ ]");
    assert_eq!(rows[1].id, "7");
    assert_eq!(rows[1].text, "Buy milk");
    assert_eq!(rows[2].status, "[x]");
    assert_eq!(rows[2].id, "2");
    assert_eq!(rows[2].text, "Pay rent");
    assert_eq!(rows[3].status, "   ");
    assert_eq!(rows[3].id, " ");
    assert_eq!(rows[3].text, "");
}

#[test]
fn undone_only_mode_skips_done_tasks() {
    let tdo = Tdo {
        lists: vec![list("Groceries", vec![task(7, "Buy milk", false), task(2, "Pay rent", true)])],
    };
    let rows = render_terminal_output(&tdo, false, 30).unwrap().unwrap();
    assert_eq!(rows.len(), 3);
    assert_eq!(rows[1].text, "Buy milk");
}

#[test]
fn ids_are_right_aligned_in_the_id_column() {
    let tdo = Tdo {
        lists: vec![list("Mixed", vec![task(7, "Small", false), task(100, "Large", false)])],
    };
    let rows = render_terminal_output(&tdo, true, 30).unwrap().unwrap();
    assert_eq!(rows[0].id, "   ");
    assert_eq!(rows[1].id, "  7");
    assert_eq!(rows[2].id, "100");
}

#[test]
fn long_names_wrap_onto_blank_prefixed_continuation_rows() {
    // Twenty columns minus nine reserved minus one id digit leave a
    // ten-character budget.
    let tdo = Tdo {
        lists: vec![list("Words", vec![task(1, "supercalifragilisticexpialidocious", true)])],
    };
    let rows = render_terminal_output(&tdo, true, 20).unwrap().unwrap();
    assert_eq!(rows.len(), 6);
    assert_eq!(rows[1].status, "[x]");
    assert_eq!(rows[1].id, "1");
    assert_eq!(rows[1].text, "supercalif");
    for k in 2..5 {
        assert_eq!(rows[k].status, "   ");
        assert_eq!(rows[k].id, " ");
    }
    assert_eq!(rows[2].text, "ragilistic");
    assert_eq!(rows[3].text, "expialidoc");
    assert_eq!(rows[4].text, "ious");
    assert_eq!(rows[5].text, "");
}

#[test]
fn id_column_width_follows_the_highest_id_across_lists() {
    let tdo = Tdo {
        lists: vec![
            list("A", vec![task(5, "Small", false)]),
            list("B", vec![task(1000, "Large", false)]),
        ],
    };
    let rows = render_terminal_output(&tdo, true, 40).unwrap().unwrap();
    assert_eq!(rows[1].id, "   5");
    assert_eq!(rows[4].id, "1000");
    assert_eq!(rows[0].id, "    ");
}

#[test]
fn every_list_appears_even_without_tasks() {
    let tdo = Tdo { lists: vec![list("A", vec![]), list("B", vec![task(1, "x", false)])] };
    let rows = render_terminal_output(&tdo, false, 40).unwrap().unwrap();
    assert_eq!(rows.len(), 5);
    assert_eq!(rows[0].text, "A");
    assert_eq!(rows[2].text, "B");
    assert_eq!(rows[3].text, "x");
}

//! The terminal renderer: turns a task-list snapshot into an ordered
//! sequence of fixed-width display rows, one cell each for the status
//! glyph, the right-aligned id, and the wrapped task text.
//!
//! The caller supplies the terminal width in columns; nine columns are
//! reserved for the status brackets, separators and padding, and the id
//! column is as wide as the decimal rendering of the collection's highest
//! id. What is left is the wrap budget for task text; a budget below one
//! is a fatal configuration error and nothing is rendered.

use vstd::prelude::*;
use vstd::pervasive::unreached;
use vstd::string::StringExecFns;
use crate::errors::ExportError;
use crate::tasks::{Tdo, Todo, TodoList, highest_id, max_id_tasks, undone_of};
use crate::text::{dec_chars, dec_digits, lemma_dec_chars_len, lemma_dec_digits_mono,
    lemma_dec_digits_u32, lemma_spaces_len, push_aligned_id, push_spaces, spaces, str_views,
    u32_digits};
use crate::wrap::{lemma_wrap_lines_fit, wrap, wrap_spec};

verus! {

/// One pre-formatted display row: the status cell (three characters for a
/// task or header row), the id cell (as wide as the id column), and the
/// task text cell.
pub struct Row {
    /// `[x]`, `[ ]`, `###` for a list header, blanks for a continuation
    /// row, empty for a separator row.
    pub status: String,
    /// The task id, right-aligned in the id column; blanks on header and
    /// continuation rows.
    pub id: String,
    /// One wrapped line of the task name, or the list name on a header
    /// row.
    pub text: String,
}

/// The mathematical content of one row.
pub open spec fn row_m(r: Row) -> (Seq<char>, Seq<char>, Seq<char>) {
    (r.status@, r.id@, r.text@)
}

/// The mathematical content of a row sequence.
pub open spec fn rows_m(rs: Seq<Row>) -> Seq<(Seq<char>, Seq<char>, Seq<char>)> {
    rs.map_values(|r: Row| row_m(r))
}

pub proof fn lemma_rows_m_push(rs: Seq<Row>, x: Row)
    ensures
        rows_m(rs.push(x)) == rows_m(rs).push(row_m(x)),
{
    assert(rows_m(rs.push(x)) =~= rows_m(rs).push(row_m(x)));
}

/// The status glyph of a task row.
pub open spec fn status_of(done: bool) -> Seq<char> {
    if done {
        "[x]"@
    } else {
        "[ ]"@
    }
}

/// The id cell: the decimal id right-aligned in a column `w` wide.
pub open spec fn aligned_id(id: nat, w: nat) -> Seq<char> {
    let d = dec_digits(id);
    spaces(
        if d <= w {
            (w - d) as nat
        } else {
            0
        },
    ) + dec_chars(id)
}

/// The width of the id column for a collection.
pub open spec fn id_width(lists: Seq<TodoList>) -> nat {
    dec_digits(highest_id(lists))
}

/// The rows of one task: the first wrapped line with status and id, then
/// one blank-prefixed continuation row per further wrapped line.
pub open spec fn task_rows(t: Todo, idw: nat, budget: int) -> Seq<
    (Seq<char>, Seq<char>, Seq<char>),
> {
    let lines = wrap_spec(t.name@, budget);
    Seq::new(
        lines.len(),
        |i: int|
            if i == 0 {
                (status_of(t.done), aligned_id(t.id as nat, idw), lines[0])
            } else {
                ("   "@, spaces(idw), lines[i])
            },
    )
}

/// The rows of a run of tasks, in order.
pub open spec fn tasks_rows(ts: Seq<Todo>, idw: nat, budget: int) -> Seq<
    (Seq<char>, Seq<char>, Seq<char>),
>
    decreases ts.len(),
{
    if ts.len() == 0 {
        Seq::empty()
    } else {
        tasks_rows(ts.drop_last(), idw, budget) + task_rows(ts.last(), idw, budget)
    }
}

/// The rows of one list: a header row, the rows of the selected tasks, and
/// a blank separator row.
pub open spec fn list_rows(l: TodoList, all: bool, idw: nat, budget: int) -> Seq<
    (Seq<char>, Seq<char>, Seq<char>),
> {
    seq![("###"@, spaces(idw), l.name@)] + tasks_rows(
        if all {
            l.list@
        } else {
            undone_of(l.list@)
        },
        idw,
        budget,
    ) + seq![("   "@, spaces(idw), Seq::<char>::empty())]
}

/// The rows of the whole collection, in list order.
pub open spec fn terminal_rows(lists: Seq<TodoList>, all: bool, idw: nat, budget: int) -> Seq<
    (Seq<char>, Seq<char>, Seq<char>),
>
    decreases lists.len(),
{
    if lists.len() == 0 {
        Seq::empty()
    } else {
        terminal_rows(lists.drop_last(), all, idw, budget) + list_rows(
            lists.last(),
            all,
            idw,
            budget,
        )
    }
}

/// Every task id in the run is at most `b`.
pub open spec fn all_ids_le(ts: Seq<Todo>, b: nat) -> bool {
    forall|k: int| 0 <= k < ts.len() ==> (#[trigger] ts[k]).id as nat <= b
}

proof fn lemma_max_id_tasks_bound(ts: Seq<Todo>)
    ensures
        all_ids_le(ts, max_id_tasks(ts)),
    decreases ts.len(),
{
    if ts.len() > 0 {
        lemma_max_id_tasks_bound(ts.drop_last());
        assert forall|k: int| 0 <= k < ts.len() implies (#[trigger] ts[k]).id as nat
            <= max_id_tasks(ts) by {
            if k < ts.len() - 1 {
                assert(ts.drop_last()[k] == ts[k]);
            } else {
                assert(ts.last() == ts[k]);
            }
        }
    }
}

proof fn lemma_undone_ids(ts: Seq<Todo>, b: nat)
    requires
        all_ids_le(ts, b),
    ensures
        all_ids_le(undone_of(ts), b),
    decreases ts.len(),
{
    if ts.len() > 0 {
        assert(forall|k: int| 0 <= k < ts.drop_last().len() ==> ts.drop_last()[k] == ts[k]);
        lemma_undone_ids(ts.drop_last(), b);
        let u = undone_of(ts);
        let u0 = undone_of(ts.drop_last());
        assert forall|k: int| 0 <= k < u.len() implies (#[trigger] u[k]).id as nat <= b by {
            if k < u0.len() {
                assert(u[k] == u0[k]);
            } else {
                assert(u[k] == ts.last());
                assert(ts.last() == ts[ts.len() - 1]);
            }
        }
    }
}

/// Every task id anywhere in the collection is at most the collection's
/// highest id.
pub proof fn lemma_highest_id_bound(lists: Seq<TodoList>)
    ensures
        forall|i: int|
            0 <= i < lists.len() ==> all_ids_le((#[trigger] lists[i]).list@, highest_id(lists)),
    decreases lists.len(),
{
    if lists.len() > 0 {
        lemma_highest_id_bound(lists.drop_last());
        lemma_max_id_tasks_bound(lists.last().list@);
        assert forall|i: int| 0 <= i < lists.len() implies all_ids_le(
            (#[trigger] lists[i]).list@,
            highest_id(lists),
        ) by {
            if i < lists.len() - 1 {
                assert(lists.drop_last()[i] == lists[i]);
                assert(all_ids_le(lists[i].list@, highest_id(lists.drop_last())));
                assert(highest_id(lists.drop_last()) <= highest_id(lists));
            } else {
                assert(lists.last() == lists[i]);
                assert(max_id_tasks(lists[i].list@) <= highest_id(lists));
            }
        }
    }
}

/// No truncation and no overflow: every text cell a task contributes —
/// first line and continuation lines alike — fits in the wrap budget.
pub proof fn lemma_task_rows_fit(t: Todo, idw: nat, budget: int)
    requires
        budget >= 1,
    ensures
        forall|i: int|
            0 <= i < task_rows(t, idw, budget).len() ==> (#[trigger] task_rows(t, idw, budget)[i]).2.len()
                <= budget,
{
    lemma_wrap_lines_fit(t.name@, budget);
    let lines = wrap_spec(t.name@, budget);
    assert forall|i: int| 0 <= i < task_rows(t, idw, budget).len() implies (#[trigger] task_rows(
        t,
        idw,
        budget,
    )[i]).2.len() <= budget by {
        assert(task_rows(t, idw, budget)[i].2 == lines[i]);
    }
}

proof fn lemma_task_rows_aligned(t: Todo, idw: nat, budget: int)
    requires
        dec_digits(t.id as nat) <= idw,
    ensures
        forall|i: int|
            0 <= i < task_rows(t, idw, budget).len() ==> (#[trigger] task_rows(t, idw, budget)[i]).1.len()
                == idw,
{
    lemma_spaces_len(idw);
    lemma_spaces_len((idw - dec_digits(t.id as nat)) as nat);
    lemma_dec_chars_len(t.id as nat);
    assert forall|i: int| 0 <= i < task_rows(t, idw, budget).len() implies (#[trigger] task_rows(
        t,
        idw,
        budget,
    )[i]).1.len() == idw by {
        if i == 0 {
            assert(task_rows(t, idw, budget)[0].1 == aligned_id(t.id as nat, idw));
        } else {
            assert(task_rows(t, idw, budget)[i].1 == spaces(idw));
        }
    }
}

proof fn lemma_tasks_rows_aligned(ts: Seq<Todo>, idw: nat, budget: int, bound: nat)
    requires
        all_ids_le(ts, bound),
        dec_digits(bound) <= idw,
    ensures
        forall|i: int|
            0 <= i < tasks_rows(ts, idw, budget).len() ==> (#[trigger] tasks_rows(
                ts,
                idw,
                budget,
            )[i]).1.len() == idw,
    decreases ts.len(),
{
    if ts.len() > 0 {
        assert(forall|k: int| 0 <= k < ts.drop_last().len() ==> ts.drop_last()[k] == ts[k]);
        lemma_tasks_rows_aligned(ts.drop_last(), idw, budget, bound);
        assert(ts.last() == ts[ts.len() - 1]);
        lemma_dec_digits_mono(ts.last().id as nat, bound);
        lemma_task_rows_aligned(ts.last(), idw, budget);
        let a = tasks_rows(ts.drop_last(), idw, budget);
        let b = task_rows(ts.last(), idw, budget);
        assert forall|i: int| 0 <= i < tasks_rows(ts, idw, budget).len() implies (
        #[trigger] tasks_rows(ts, idw, budget)[i]).1.len() == idw by {
            if i < a.len() {
                assert(tasks_rows(ts, idw, budget)[i] == a[i]);
            } else {
                assert(tasks_rows(ts, idw, budget)[i] == b[i - a.len()]);
            }
        }
    }
}

proof fn lemma_list_rows_aligned(l: TodoList, all: bool, idw: nat, budget: int, bound: nat)
    requires
        all_ids_le(l.list@, bound),
        dec_digits(bound) <= idw,
    ensures
        forall|i: int|
            0 <= i < list_rows(l, all, idw, budget).len() ==> (#[trigger] list_rows(
                l,
                all,
                idw,
                budget,
            )[i]).1.len() == idw,
{
    lemma_spaces_len(idw);
    if !all {
        lemma_undone_ids(l.list@, bound);
    }
    let ts = if all {
        l.list@
    } else {
        undone_of(l.list@)
    };
    lemma_tasks_rows_aligned(ts, idw, budget, bound);
    let mid = tasks_rows(ts, idw, budget);
    assert forall|i: int| 0 <= i < list_rows(l, all, idw, budget).len() implies (
    #[trigger] list_rows(l, all, idw, budget)[i]).1.len() == idw by {
        if i == 0 {
            assert(list_rows(l, all, idw, budget)[0].1 == spaces(idw));
        } else if i < 1 + mid.len() {
            assert(list_rows(l, all, idw, budget)[i] == mid[i - 1]);
        } else {
            assert(list_rows(l, all, idw, budget)[i].1 == spaces(idw));
        }
    }
}

/// Column alignment: every rendered row — header, task, continuation and
/// separator alike — carries an id cell exactly as wide as the id column,
/// so the text cells of a task and of its continuation rows line up.
pub proof fn lemma_terminal_rows_aligned(lists: Seq<TodoList>, all: bool, budget: int)
    ensures
        forall|i: int|
            0 <= i < terminal_rows(lists, all, id_width(lists), budget).len() ==> (
            #[trigger] terminal_rows(lists, all, id_width(lists), budget)[i]).1.len() == id_width(
                lists,
            ),
{
    lemma_highest_id_bound(lists);
    lemma_terminal_rows_aligned_rec(lists, lists, all, budget);
}

proof fn lemma_terminal_rows_aligned_rec(
    lists: Seq<TodoList>,
    whole: Seq<TodoList>,
    all: bool,
    budget: int,
)
    requires
        forall|i: int| 0 <= i < lists.len() ==> all_ids_le((#[trigger] lists[i]).list@, highest_id(whole)),
    ensures
        forall|i: int|
            0 <= i < terminal_rows(lists, all, id_width(whole), budget).len() ==> (
            #[trigger] terminal_rows(lists, all, id_width(whole), budget)[i]).1.len() == id_width(
                whole,
            ),
    decreases lists.len(),
{
    let idw = id_width(whole);
    if lists.len() > 0 {
        assert(forall|i: int| 0 <= i < lists.drop_last().len() ==> lists.drop_last()[i] == lists[i]);
        lemma_terminal_rows_aligned_rec(lists.drop_last(), whole, all, budget);
        assert(lists.last() == lists[lists.len() - 1]);
        lemma_list_rows_aligned(lists.last(), all, idw, budget, highest_id(whole));
        let a = terminal_rows(lists.drop_last(), all, idw, budget);
        let b = list_rows(lists.last(), all, idw, budget);
        assert forall|i: int| 0 <= i < terminal_rows(lists, all, idw, budget).len() implies (
        #[trigger] terminal_rows(lists, all, idw, budget)[i]).1.len() == idw by {
            if i < a.len() {
                assert(terminal_rows(lists, all, idw, budget)[i] == a[i]);
            } else {
                assert(terminal_rows(lists, all, idw, budget)[i] == b[i - a.len()]);
            }
        }
    }
}

/// Renders the collection as terminal rows.
///
/// `columns` is the terminal width; `all` selects every task, otherwise
/// only undone ones. A terminal too narrow to leave a positive wrap budget
/// is refused with `InvalidWidth` and nothing is rendered. An empty
/// collection yields `Ok(None)` (zero rows); otherwise the full ordered
/// row set is returned.
pub fn render_terminal_output(tdo: &Tdo, all: bool, columns: usize) -> (r: Result<
    Option<Vec<Row>>,
    ExportError,
>)
    ensures
        columns <= 9 + id_width(tdo.lists@) <==> r == Err::<Option<Vec<Row>>, ExportError>(
            ExportError::InvalidWidth,
        ),
        (columns > 9 + id_width(tdo.lists@) && tdo.lists@.len() == 0) <==> r == Ok::<
            Option<Vec<Row>>,
            ExportError,
        >(None),
        (columns > 9 + id_width(tdo.lists@) && tdo.lists@.len() > 0) ==> (r matches Ok(o) && o
            matches Some(v) && rows_m(v@) == terminal_rows(
            tdo.lists@,
            all,
            id_width(tdo.lists@),
            columns - 9 - id_width(tdo.lists@),
        )),
{
    let highest = tdo.get_highest_id();
    let idw = u32_digits(highest);
    proof {
        lemma_dec_digits_u32(highest as nat);
    }
    if columns <= 9 + idw {
        return Err(ExportError::InvalidWidth);
    }
    let budget = columns - 9 - idw;
    let ghost idwn = idw as nat;
    let ghost budg = budget as int;
    proof {
        lemma_highest_id_bound(tdo.lists@);
    }
    let mut rows: Vec<Row> = Vec::new();
    let mut i: usize = 0;
    proof {
        assert(rows_m(rows@) =~~= terminal_rows(tdo.lists@.take(0), all, idwn, budg));
    }
    while i < tdo.lists.len()
        invariant
            i <= tdo.lists@.len(),
            idwn == id_width(tdo.lists@),
            budg == budget as int,
            budget >= 1,
            idw as nat == idwn,
            forall|ii: int|
                0 <= ii < tdo.lists@.len() ==> all_ids_le(
                    (#[trigger] tdo.lists@[ii]).list@,
                    highest_id(tdo.lists@),
                ),
            idwn == dec_digits(highest_id(tdo.lists@)),
            rows_m(rows@) == terminal_rows(tdo.lists@.take(i as int), all, idwn, budg),
        decreases tdo.lists@.len() - i,
    {
        proof {
            assert(tdo.lists@.take(i as int + 1).drop_last() =~= tdo.lists@.take(i as int));
            assert(tdo.lists@.take(i as int + 1).last() == tdo.lists@[i as int]);
        }
        let ghost pre = rows@;
        let list = &tdo.lists[i];
        let mut hcell = String::new();
        push_spaces(&mut hcell, idw);
        let hrow = Row { status: String::from_str("###"), id: hcell, text: list.name.clone() };
        rows.push(hrow);
        proof {
            lemma_rows_m_push(pre, rows@[rows@.len() - 1]);
            assert(rows@[rows@.len() - 1].id@ =~= spaces(idwn));
            assert(row_m(rows@[rows@.len() - 1]) == ("###"@, spaces(idwn), tdo.lists@[
                i as int].name@));
            assert(rows_m(rows@) =~~= terminal_rows(tdo.lists@.take(i as int), all, idwn, budg)
                + seq![("###"@, spaces(idwn), tdo.lists@[i as int].name@)]);
        }
        let tasks: Vec<Todo> = if all {
            list.list_all()
        } else {
            list.list_undone()
        };
        proof {
            if !all {
                lemma_undone_ids(tdo.lists@[i as int].list@, highest_id(tdo.lists@));
            }
            assert(all_ids_le(tasks@, highest_id(tdo.lists@)));
        }
        let ghost base = rows@;
        let mut k: usize = 0;
        proof {
            assert(tasks@.take(0) =~= Seq::<Todo>::empty());
            assert(rows_m(rows@) =~~= rows_m(base) + tasks_rows(tasks@.take(0), idwn, budg));
        }
        while k < tasks.len()
            invariant
                k <= tasks@.len(),
                budget >= 1,
                budg == budget as int,
                idw as nat == idwn,
                all_ids_le(tasks@, highest_id(tdo.lists@)),
                idwn == dec_digits(highest_id(tdo.lists@)),
                rows_m(rows@) == rows_m(base) + tasks_rows(tasks@.take(k as int), idwn, budg),
            decreases tasks@.len() - k,
        {
            proof {
                assert(tasks@.take(k as int + 1).drop_last() =~= tasks@.take(k as int));
                assert(tasks@.take(k as int + 1).last() == tasks@[k as int]);
                assert(tasks@[k as int].id as nat <= highest_id(tdo.lists@));
                lemma_dec_digits_mono(tasks@[k as int].id as nat, highest_id(tdo.lists@));
            }
            let t = &tasks[k];
            let lines = match wrap(t.name.as_str(), budget) {
                Ok(l) => l,
                Err(_) => unreached(),
            };
            let ghost target_t = task_rows(tasks@[k as int], idwn, budg);
            let ghost tbase = rows@;
            proof {
                assert(str_views(lines@) == wrap_spec(tasks@[k as int].name@, budg));
                assert(target_t.len() == lines@.len());
                assert(rows_m(rows@) =~~= rows_m(tbase) + target_t.take(0));
            }
            let mut li: usize = 0;
            while li < lines.len()
                invariant
                    li <= lines@.len(),
                    budg == budget as int,
                    idw as nat == idwn,
                    dec_digits(tasks@[k as int].id as nat) <= idwn,
                    t == &tasks[k as int],
                    k < tasks@.len(),
                    str_views(lines@) == wrap_spec(tasks@[k as int].name@, budg),
                    target_t == task_rows(tasks@[k as int], idwn, budg),
                    target_t.len() == lines@.len(),
                    rows_m(rows@) == rows_m(tbase) + target_t.take(li as int),
                decreases lines@.len() - li,
            {
                let row = if li == 0 {
                    let mut idc = String::new();
                    push_aligned_id(&mut idc, t.id, idw);
                    let status = if t.done {
                        String::from_str("[x]")
                    } else {
                        String::from_str("[ ]")
                    };
                    Row { status, id: idc, text: lines[li].clone() }
                } else {
                    let mut idc = String::new();
                    push_spaces(&mut idc, idw);
                    Row { status: String::from_str("   "), id: idc, text: lines[li].clone() }
                };
                let ghost prer = rows@;
                rows.push(row);
                proof {
                    lemma_rows_m_push(prer, rows@[rows@.len() - 1]);
                    let pushed = rows@[rows@.len() - 1];
                    assert(str_views(lines@)[li as int] == lines@[li as int]@);
                    if li == 0 {
                        assert(pushed.id@ =~= aligned_id(tasks@[k as int].id as nat, idwn));
                        assert(pushed.status@ == status_of(tasks@[k as int].done));
                        assert(row_m(pushed) == target_t[0]);
                    } else {
                        assert(pushed.id@ =~= spaces(idwn));
                        assert(row_m(pushed) == target_t[li as int]);
                    }
                    assert(rows_m(rows@) =~~= rows_m(tbase) + target_t.take(li as int + 1));
                }
                li = li + 1;
            }
            k = k + 1;
            proof {
                assert(target_t.take(target_t.len() as int) =~= target_t);
                assert(rows_m(rows@) =~~= rows_m(base) + tasks_rows(tasks@.take(k as int), idwn,
                    budg));
            }
        }
        let mut scell = String::new();
        push_spaces(&mut scell, idw);
        let srow = Row { status: String::from_str("   "), id: scell, text: String::new() };
        let ghost pres = rows@;
        rows.push(srow);
        i = i + 1;
        proof {
            assert(tasks@.take(tasks@.len() as int) =~= tasks@);
            lemma_rows_m_push(pres, rows@[rows@.len() - 1]);
            assert(rows@[rows@.len() - 1].id@ =~= spaces(idwn));
            assert(row_m(rows@[rows@.len() - 1]) == ("   "@, spaces(idwn), Seq::<char>::empty()));
            assert(rows_m(rows@) =~~= terminal_rows(tdo.lists@.take(i - 1), all, idwn, budg)
                + list_rows(tdo.lists@[i - 1], all, idwn, budg));
            assert(rows_m(rows@) =~~= terminal_rows(tdo.lists@.take(i as int), all, idwn, budg));
        }
    }
    proof {
        assert(tdo.lists@.take(tdo.lists@.len() as int) =~= tdo.lists@);
    }
    if rows.len() == 0 {
        proof {
            if tdo.lists@.len() > 0 {
                assert(terminal_rows(tdo.lists@, all, idwn, budg).len() >= 2);
            }
        }
        Ok(None)
    } else {
        proof {
            if tdo.lists@.len() == 0 {
                assert(rows_m(rows@).len() == 0);
            }
        }
        Ok(Some(rows))
    }
}

} // verus!

//! The three exporters over a task-list snapshot: the plaintext mail
//! digest, the Markdown export, and the fixed-width terminal rows.
//!
//! All three are pure transforms: they read the snapshot, never mutate it,
//! and return an explicit empty result (`None`, or zero rows) when no list
//! contributes content — absence is not failure.

use vstd::prelude::*;
use vstd::string::{StringExecFns, StrSliceExecFns};
use crate::tasks::{Tdo, Todo, TodoList, undone_of};

verus! {

/// The digest line one task contributes to the mail export.
///
/// The selection policy of the source is kept exactly: within the set that
/// the undone filter returned, only entries whose done flag is set emit a
/// line. (The two filters look contradictory on purpose: the mail digest
/// reproduces the upstream selection verbatim rather than repairing it.)
pub open spec fn mail_entry(t: Todo) -> Seq<char> {
    if t.done {
        "- "@ + t.name@ + "\n"@
    } else {
        Seq::<char>::empty()
    }
}

/// The digest lines of a run of tasks, in order.
pub open spec fn mail_entries(ts: Seq<Todo>) -> Seq<char>
    decreases ts.len(),
{
    if ts.len() == 0 {
        Seq::empty()
    } else {
        mail_entries(ts.drop_last()) + mail_entry(ts.last())
    }
}

/// The mail block of one list: nothing when the list has no undone task,
/// else a bordered header with the list name followed by the digest lines.
pub open spec fn mail_block(l: TodoList) -> Seq<char> {
    if undone_of(l.list@).len() == 0 {
        Seq::<char>::empty()
    } else {
        "\n------------------------------------------------------------\n\t"@ + l.name@
            + "\n------------------------------------------------------------\n"@ + mail_entries(
            undone_of(l.list@),
        ) + "\n\n"@
    }
}

/// The whole mail digest body.
pub open spec fn mail_body(lists: Seq<TodoList>) -> Seq<char>
    decreases lists.len(),
{
    if lists.len() == 0 {
        Seq::empty()
    } else {
        mail_body(lists.drop_last()) + mail_block(lists.last())
    }
}

/// The mail body is empty exactly when no list has an undone task.
pub proof fn lemma_mail_body_empty(lists: Seq<TodoList>)
    ensures
        mail_body(lists).len() == 0 <==> (forall|i: int|
            0 <= i < lists.len() ==> undone_of(#[trigger] lists[i].list@).len() == 0),
    decreases lists.len(),
{
    reveal_strlit("\n------------------------------------------------------------\n\t");
    if lists.len() > 0 {
        lemma_mail_body_empty(lists.drop_last());
        assert(forall|i: int|
            0 <= i < lists.drop_last().len() ==> lists.drop_last()[i] == lists[i]);
        if undone_of(lists.last().list@).len() == 0 {
            if mail_body(lists).len() == 0 {
                assert forall|i: int| 0 <= i < lists.len() implies undone_of(
                    #[trigger] lists[i].list@,
                ).len() == 0 by {
                    if i < lists.len() - 1 {
                        assert(lists.drop_last()[i] == lists[i]);
                    } else {
                        assert(lists.last() == lists[i]);
                    }
                }
            }
        } else {
            assert(mail_block(lists.last()).len() > 0);
            assert(undone_of(lists[lists.len() - 1].list@).len() > 0);
        }
    }
}

/// Generates the mail digest of all undone tasks.
///
/// For each list with at least one undone task the digest holds a bordered
/// header with the list name, then the lines its tasks contribute under
/// the preserved upstream selection policy (see [`mail_entry`]). `None`
/// exactly when no list has an undone task.
pub fn gen_tasks_mail(tdo: &Tdo) -> (r: Option<String>)
    ensures
        r is None <==> mail_body(tdo.lists@).len() == 0,
        r is None <==> (forall|i: int|
            0 <= i < tdo.lists@.len() ==> undone_of(#[trigger] tdo.lists@[i].list@).len() == 0),
        r matches Some(s) ==> s@ == mail_body(tdo.lists@),
{
    let mut listed = String::new();
    let mut i: usize = 0;
    proof {
        assert(listed@ =~= mail_body(tdo.lists@.take(0)));
    }
    while i < tdo.lists.len()
        invariant
            i <= tdo.lists@.len(),
            listed@ == mail_body(tdo.lists@.take(i as int)),
        decreases tdo.lists@.len() - i,
    {
        let ghost pre = listed@;
        proof {
            assert(tdo.lists@.take(i as int + 1).drop_last() =~= tdo.lists@.take(i as int));
            assert(tdo.lists@.take(i as int + 1).last() == tdo.lists@[i as int]);
        }
        let list = &tdo.lists[i];
        let undone = list.list_undone();
        if undone.len() > 0 {
            listed.append("\n------------------------------------------------------------\n\t");
            listed.append(list.name.as_str());
            listed.append("\n------------------------------------------------------------\n");
            let ghost head = listed@;
            let mut k: usize = 0;
            proof {
                assert(undone@.take(0) =~= Seq::<Todo>::empty());
                assert(listed@ =~= head + mail_entries(undone@.take(0)));
            }
            while k < undone.len()
                invariant
                    k <= undone@.len(),
                    listed@ == head + mail_entries(undone@.take(k as int)),
                decreases undone@.len() - k,
            {
                proof {
                    assert(undone@.take(k as int + 1).drop_last() =~= undone@.take(k as int));
                    assert(undone@.take(k as int + 1).last() == undone@[k as int]);
                }
                let entry = &undone[k];
                if entry.done {
                    listed.append("- ");
                    listed.append(entry.name.as_str());
                    listed.append("\n");
                }
                k = k + 1;
                proof {
                    assert(listed@ =~= head + mail_entries(undone@.take(k as int)));
                }
            }
            listed.append("\n\n");
            proof {
                assert(undone@.take(undone@.len() as int) =~= undone@);
                assert(listed@ =~= pre + mail_block(tdo.lists@[i as int]));
            }
        } else {
            proof {
                assert(listed@ =~= pre + mail_block(tdo.lists@[i as int]));
            }
        }
        i = i + 1;
    }
    proof {
        assert(tdo.lists@.take(tdo.lists@.len() as int) =~= tdo.lists@);
        lemma_mail_body_empty(tdo.lists@);
    }
    if listed.as_str().unicode_len() == 0 {
        None
    } else {
        Some(listed)
    }
}

/// The checkbox line of one task in the Markdown export.
pub open spec fn md_entry(t: Todo) -> Seq<char> {
    if t.done {
        "- [x] "@ + t.name@ + "\n"@
    } else {
        "- [ ] "@ + t.name@ + "\n"@
    }
}

/// The checkbox lines of a run of tasks, in order.
pub open spec fn md_entries(ts: Seq<Todo>) -> Seq<char>
    decreases ts.len(),
{
    if ts.len() == 0 {
        Seq::empty()
    } else {
        md_entries(ts.drop_last()) + md_entry(ts.last())
    }
}

/// The Markdown block of one list: a heading and the checkbox lines of the
/// selected tasks. With `list_done` set, a list whose selection is empty
/// still emits its heading; without it, such a list is omitted entirely.
pub open spec fn md_block(l: TodoList, list_done: bool) -> Seq<char> {
    let ts = if list_done {
        l.list@
    } else {
        undone_of(l.list@)
    };
    if ts.len() > 0 {
        "\n### "@ + l.name@ + "\n"@ + md_entries(ts)
    } else if list_done {
        "\n### "@ + l.name@ + "\n"@
    } else {
        Seq::<char>::empty()
    }
}

/// The list blocks of the Markdown export, in order.
pub open spec fn md_intern(lists: Seq<TodoList>, list_done: bool) -> Seq<char>
    decreases lists.len(),
{
    if lists.len() == 0 {
        Seq::empty()
    } else {
        md_intern(lists.drop_last(), list_done) + md_block(lists.last(), list_done)
    }
}

/// The optional greeting line naming the current user.
pub open spec fn md_name_line(full_name: Option<&str>) -> Seq<char> {
    match full_name {
        Some(n) => "Here are the tasks for "@ + n@ + "\n\n"@,
        None => Seq::<char>::empty(),
    }
}

/// The list blocks are empty exactly when no list qualifies: with
/// `list_done` set only an empty collection produces nothing, without it a
/// collection whose lists have no undone task does.
pub proof fn lemma_md_intern_empty(lists: Seq<TodoList>, list_done: bool)
    ensures
        list_done ==> (md_intern(lists, list_done).len() == 0 <==> lists.len() == 0),
        !list_done ==> (md_intern(lists, list_done).len() == 0 <==> (forall|i: int|
            0 <= i < lists.len() ==> undone_of(#[trigger] lists[i].list@).len() == 0)),
    decreases lists.len(),
{
    reveal_strlit("\n### ");
    if lists.len() > 0 {
        lemma_md_intern_empty(lists.drop_last(), list_done);
        assert(forall|i: int|
            0 <= i < lists.drop_last().len() ==> lists.drop_last()[i] == lists[i]);
        if list_done {
            assert(md_block(lists.last(), list_done).len() > 0);
        } else {
            if undone_of(lists.last().list@).len() == 0 {
                if md_intern(lists, list_done).len() == 0 {
                    assert forall|i: int| 0 <= i < lists.len() implies undone_of(
                        #[trigger] lists[i].list@,
                    ).len() == 0 by {
                        if i < lists.len() - 1 {
                            assert(lists.drop_last()[i] == lists[i]);
                        } else {
                            assert(lists.last() == lists[i]);
                        }
                    }
                }
            } else {
                assert(md_block(lists.last(), list_done).len() > 0);
                assert(undone_of(lists[lists.len() - 1].list@).len() > 0);
            }
        }
    }
}

/// Generates the Markdown export of the lists.
///
/// Emits a top-level heading, an optional greeting carrying the caller's
/// resolved display name (resolution failure is non-fatal and merely
/// omits the line), and one block per selected list: a `###` heading and
/// one checkbox line per selected task. `list_done` selects all tasks,
/// otherwise only undone ones. `None` exactly when no list qualifies.
pub fn gen_tasks_md(tdo: &Tdo, list_done: bool, full_name: Option<&str>) -> (r: Option<String>)
    ensures
        r is None <==> md_intern(tdo.lists@, list_done).len() == 0,
        r is None <==> (if list_done {
            tdo.lists@.len() == 0
        } else {
            forall|i: int|
                0 <= i < tdo.lists@.len() ==> undone_of(#[trigger] tdo.lists@[i].list@).len() == 0
        }),
        r matches Some(s) ==> s@ == "# Your tasks\n\n"@ + md_name_line(full_name) + md_intern(
            tdo.lists@,
            list_done,
        ),
{
    let mut markdown = String::from_str("# Your tasks\n\n");
    match full_name {
        Some(n) => {
            markdown.append("Here are the tasks for ");
            markdown.append(n);
            markdown.append("\n\n");
        },
        None => {},
    }
    proof {
        assert(markdown@ =~= "# Your tasks\n\n"@ + md_name_line(full_name));
    }
    let mut intern = String::new();
    let mut i: usize = 0;
    proof {
        assert(intern@ =~= md_intern(tdo.lists@.take(0), list_done));
    }
    while i < tdo.lists.len()
        invariant
            i <= tdo.lists@.len(),
            intern@ == md_intern(tdo.lists@.take(i as int), list_done),
        decreases tdo.lists@.len() - i,
    {
        let ghost pre = intern@;
        proof {
            assert(tdo.lists@.take(i as int + 1).drop_last() =~= tdo.lists@.take(i as int));
            assert(tdo.lists@.take(i as int + 1).last() == tdo.lists@[i as int]);
        }
        let list = &tdo.lists[i];
        let tasks: Vec<Todo> = if list_done {
            list.list_all()
        } else {
            list.list_undone()
        };
        if tasks.len() > 0 {
            intern.append("\n### ");
            intern.append(list.name.as_str());
            intern.append("\n");
            let ghost head = intern@;
            let mut k: usize = 0;
            proof {
                assert(tasks@.take(0) =~= Seq::<Todo>::empty());
                assert(intern@ =~= head + md_entries(tasks@.take(0)));
            }
            while k < tasks.len()
                invariant
                    k <= tasks@.len(),
                    intern@ == head + md_entries(tasks@.take(k as int)),
                decreases tasks@.len() - k,
            {
                proof {
                    assert(tasks@.take(k as int + 1).drop_last() =~= tasks@.take(k as int));
                    assert(tasks@.take(k as int + 1).last() == tasks@[k as int]);
                }
                let entry = &tasks[k];
                if entry.done {
                    intern.append("- [x] ");
                } else {
                    intern.append("- [ ] ");
                }
                intern.append(entry.name.as_str());
                intern.append("\n");
                k = k + 1;
                proof {
                    assert(intern@ =~= head + md_entries(tasks@.take(k as int)));
                }
            }
            proof {
                assert(tasks@.take(tasks@.len() as int) =~= tasks@);
                assert(intern@ =~= pre + md_block(tdo.lists@[i as int], list_done));
            }
        } else if list_done {
            intern.append("\n### ");
            intern.append(list.name.as_str());
            intern.append("\n");
            proof {
                assert(intern@ =~= pre + md_block(tdo.lists@[i as int], list_done));
            }
        } else {
            proof {
                assert(intern@ =~= pre + md_block(tdo.lists@[i as int], list_done));
            }
        }
        i = i + 1;
    }
    proof {
        assert(tdo.lists@.take(tdo.lists@.len() as int) =~= tdo.lists@);
        lemma_md_intern_empty(tdo.lists@, list_done);
    }
    if intern.as_str().unicode_len() == 0 {
        None
    } else {
        markdown.append(intern.as_str());
        Some(markdown)
    }
}

} // verus!

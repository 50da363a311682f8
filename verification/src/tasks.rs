//! The task-list snapshot that the exporters and the sync logic read.
//!
//! The renderers treat these values as a read-only data source: a
//! collection of named lists of tasks, each task with an id, a name, a
//! done flag and an optional link to a remote GitHub issue.

use vstd::prelude::*;

verus! {

/// A link from a local task to its remote GitHub issue.
pub struct GitHub {
    /// `owner/repository`, as the tracker's API expects it.
    pub repo: String,
    /// The remote issue number.
    pub issue_number: u32,
}

/// One task.
pub struct Todo {
    /// Identity, unique within its list.
    pub id: u32,
    /// The task text shown in every export.
    pub name: String,
    /// Whether the task is finished.
    pub done: bool,
    /// Link to a tracker issue, if the task has one.
    pub github: Option<GitHub>,
}

/// A named, ordered list of tasks; the order is display order.
pub struct TodoList {
    /// The list's display name.
    pub name: String,
    /// The tasks, in display order.
    pub list: Vec<Todo>,
}

/// All task lists, in display order.
pub struct Tdo {
    /// The lists, in display order.
    pub lists: Vec<TodoList>,
}

impl GitHub {
    /// A fresh link with the same fields.
    pub fn dup(&self) -> (r: GitHub)
        ensures
            r == *self,
    {
        GitHub { repo: self.repo.clone(), issue_number: self.issue_number }
    }
}

impl Todo {
    /// A fresh task with the same fields.
    pub fn dup(&self) -> (r: Todo)
        ensures
            r == *self,
    {
        let github = match &self.github {
            Some(g) => Some(g.dup()),
            None => None,
        };
        Todo { id: self.id, name: self.name.clone(), done: self.done, github }
    }
}

/// The subsequence of tasks whose done flag is cleared, in order.
pub open spec fn undone_of(ts: Seq<Todo>) -> Seq<Todo>
    decreases ts.len(),
{
    if ts.len() == 0 {
        Seq::empty()
    } else {
        undone_of(ts.drop_last()) + (if ts.last().done {
            Seq::<Todo>::empty()
        } else {
            seq![ts.last()]
        })
    }
}

/// The largest task id in the tasks, or zero when there is none.
pub open spec fn max_id_tasks(ts: Seq<Todo>) -> nat
    decreases ts.len(),
{
    if ts.len() == 0 {
        0
    } else {
        let rest = max_id_tasks(ts.drop_last());
        if ts.last().id as nat > rest {
            ts.last().id as nat
        } else {
            rest
        }
    }
}

/// The largest task id across all lists, or zero when there is no task.
pub open spec fn highest_id(lists: Seq<TodoList>) -> nat
    decreases lists.len(),
{
    if lists.len() == 0 {
        0
    } else {
        let rest = highest_id(lists.drop_last());
        let here = max_id_tasks(lists.last().list@);
        if here > rest {
            here
        } else {
            rest
        }
    }
}

impl TodoList {
    /// All tasks of this list, as fresh copies, in order.
    pub fn list_all(&self) -> (r: Vec<Todo>)
        ensures
            r@ == self.list@,
    {
        let mut r: Vec<Todo> = Vec::new();
        let mut i: usize = 0;
        while i < self.list.len()
            invariant
                i <= self.list@.len(),
                r@ == self.list@.take(i as int),
            decreases self.list@.len() - i,
        {
            let t = self.list[i].dup();
            r.push(t);
            i = i + 1;
            proof {
                assert(r@ =~= self.list@.take(i as int));
            }
        }
        proof {
            assert(self.list@.take(self.list@.len() as int) =~= self.list@);
        }
        r
    }

    /// The undone tasks of this list, as fresh copies, in order.
    pub fn list_undone(&self) -> (r: Vec<Todo>)
        ensures
            r@ == undone_of(self.list@),
    {
        let mut r: Vec<Todo> = Vec::new();
        let mut i: usize = 0;
        proof {
            assert(self.list@.take(0) =~= Seq::<Todo>::empty());
        }
        while i < self.list.len()
            invariant
                i <= self.list@.len(),
                r@ == undone_of(self.list@.take(i as int)),
            decreases self.list@.len() - i,
        {
            let ghost pre = r@;
            proof {
                assert(self.list@.take(i as int + 1).drop_last() =~= self.list@.take(i as int));
                assert(self.list@.take(i as int + 1).last() == self.list@[i as int]);
            }
            if !self.list[i].done {
                let t = self.list[i].dup();
                r.push(t);
                proof {
                    assert(r@ =~= pre + seq![self.list@[i as int]]);
                }
            } else {
                proof {
                    assert(r@ =~= pre + Seq::<Todo>::empty());
                }
            }
            i = i + 1;
        }
        proof {
            assert(self.list@.take(self.list@.len() as int) =~= self.list@);
        }
        r
    }
}

fn max_id_of_tasks(v: &Vec<Todo>) -> (r: u32)
    ensures
        r as nat == max_id_tasks(v@),
{
    let mut r: u32 = 0;
    let mut i: usize = 0;
    proof {
        assert(v@.take(0) =~= Seq::<Todo>::empty());
    }
    while i < v.len()
        invariant
            i <= v@.len(),
            r as nat == max_id_tasks(v@.take(i as int)),
        decreases v@.len() - i,
    {
        proof {
            assert(v@.take(i as int + 1).drop_last() =~= v@.take(i as int));
            assert(v@.take(i as int + 1).last() == v@[i as int]);
        }
        if v[i].id > r {
            r = v[i].id;
        }
        i = i + 1;
    }
    proof {
        assert(v@.take(v@.len() as int) =~= v@);
    }
    r
}

impl Tdo {
    /// The largest task id across all lists, used to size the id column.
    pub fn get_highest_id(&self) -> (r: u32)
        ensures
            r as nat == highest_id(self.lists@),
    {
        let mut r: u32 = 0;
        let mut i: usize = 0;
        proof {
            assert(self.lists@.take(0) =~= Seq::<TodoList>::empty());
        }
        while i < self.lists.len()
            invariant
                i <= self.lists@.len(),
                r as nat == highest_id(self.lists@.take(i as int)),
            decreases self.lists@.len() - i,
        {
            proof {
                assert(self.lists@.take(i as int + 1).drop_last() =~= self.lists@.take(i as int));
                assert(self.lists@.take(i as int + 1).last() == self.lists@[i as int]);
            }
            let here = max_id_of_tasks(&self.lists[i].list);
            if here > r {
                r = here;
            }
            i = i + 1;
        }
        proof {
            assert(self.lists@.take(self.lists@.len() as int) =~= self.lists@);
        }
        r
    }
}

} // verus!

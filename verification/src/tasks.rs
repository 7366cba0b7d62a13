use vstd::prelude::*;

use crate::errors::TdError;

verus! {

/// Mathematical content of one task: its completion flag and its text.
#[verifier::ext_equal]
pub ghost struct TaskView {
    pub done: bool,
    pub text: Seq<char>,
}

/// One to-do item: free text plus a completion flag.
pub struct Task {
    done: bool,
    text: String,
}

impl View for Task {
    type V = TaskView;

    closed spec fn view(&self) -> TaskView {
        TaskView { done: self.done, text: self.text@ }
    }
}

impl Task {
    /// A fresh task starts out not done.
    pub fn new(text: String) -> (r: Task)
        ensures
            r@ == (TaskView { done: false, text: text@ }),
    {
        Task { done: false, text }
    }

    pub fn is_done(&self) -> (r: bool)
        ensures
            r == self@.done,
    {
        self.done
    }

    /// Flips the completion flag; the text is untouched.
    pub fn toggle_done(&mut self)
        ensures
            final(self)@ == (TaskView { done: !old(self)@.done, text: old(self)@.text }),
    {
        self.done = !self.done;
    }

    /// Replaces the whole text; the completion flag is untouched.
    pub fn edit(&mut self, text: String)
        ensures
            final(self)@ == (TaskView { done: old(self)@.done, text: text@ }),
    {
        self.text = text;
    }

    /// The task's text, for rendering.
    pub fn text(&self) -> (r: &String)
        ensures
            r@ == self@.text,
    {
        &self.text
    }
}

impl Clone for Task {
    fn clone(&self) -> (r: Self)
        ensures
            r@ == self@,
    {
        Task { done: self.done, text: self.text.clone() }
    }
}

/// True when the 1-based index `idx` addresses a task of a list of length `len`.
pub open spec fn valid_index(len: nat, idx: usize) -> bool {
    1 <= idx && idx as nat <= len
}

/// Number of tasks in `s` whose completion flag is not set.
pub open spec fn count_undone_spec(s: Seq<TaskView>) -> nat
    decreases s.len(),
{
    if s.len() == 0 {
        0
    } else {
        count_undone_spec(s.drop_last()) + (if s.last().done {
            0nat
        } else {
            1nat
        })
    }
}

/// The list `s` after setting the completion flag at 1-based position `idx`.
pub open spec fn mark_spec(s: Seq<TaskView>, idx: usize, done: bool) -> Seq<TaskView> {
    s.update(idx - 1, TaskView { done: done, text: s[idx - 1].text })
}

/// True when the 1-based position `pos` occurs among `idxs`.
pub open spec fn contains_index(idxs: Seq<usize>, pos: int) -> bool {
    exists|j: int| 0 <= j < idxs.len() && idxs[j] as int == pos
}

/// `s` with the tasks at the 1-based positions listed in `idxs` removed:
/// duplicate positions collapse, the relative order of the rest is kept.
pub open spec fn remove_marked(s: Seq<TaskView>, idxs: Seq<usize>) -> Seq<TaskView>
    decreases s.len(),
{
    if s.len() == 0 {
        Seq::empty()
    } else if contains_index(idxs, s.len() as int) {
        remove_marked(s.drop_last(), idxs)
    } else {
        remove_marked(s.drop_last(), idxs).push(s.last())
    }
}

/// An ordered task list for one session, addressed by 1-based indices.
pub struct TaskList {
    tasks: Vec<Task>,
}

impl View for TaskList {
    type V = Seq<TaskView>;

    closed spec fn view(&self) -> Seq<TaskView> {
        Seq::new(self.tasks@.len(), |i: int| self.tasks@[i]@)
    }
}

impl TaskList {
    pub fn new() -> (r: TaskList)
        ensures
            r@ == Seq::<TaskView>::empty(),
    {
        let r = TaskList { tasks: Vec::new() };
        proof {
            assert(r@ =~= Seq::<TaskView>::empty());
        }
        r
    }

    /// Appends a new, not-yet-done task at the end of the list.
    pub fn add_task(&mut self, text: String)
        ensures
            final(self)@ == old(self)@.push(TaskView { done: false, text: text@ }),
    {
        let ghost pre = self@;
        let ghost tv = TaskView { done: false, text: text@ };
        self.tasks.push(Task::new(text));
        proof {
            assert(self@ =~= pre.push(tv));
        }
    }

    pub fn count_tasks(&self) -> (r: usize)
        ensures
            r == self@.len(),
    {
        self.tasks.len()
    }

    /// Wraps an already-built vector of tasks as a list.
    pub(crate) fn from_vec(tasks: Vec<Task>) -> (r: TaskList)
        ensures
            r@ == Seq::new(tasks@.len(), |i: int| tasks@[i]@),
    {
        TaskList { tasks }
    }

    /// Borrows the task at the 0-based position `i`.
    pub(crate) fn task_at(&self, i: usize) -> (r: &Task)
        requires
            i < self@.len(),
        ensures
            r@ == self@[i as int],
    {
        &self.tasks[i]
    }

    /// Counts the tasks that are not yet done.
    pub fn count_undone(&self) -> (r: usize)
        ensures
            r as nat == count_undone_spec(self@),
    {
        let mut n: usize = 0;
        let mut i: usize = 0;
        while i < self.tasks.len()
            invariant
                0 <= i <= self.tasks.len(),
                n as nat == count_undone_spec(self@.take(i as int)),
                n <= i,
            decreases self.tasks.len() - i,
        {
            proof {
                assert(self@.take(i + 1).drop_last() =~= self@.take(i as int));
                assert(self@.take(i + 1).last() == self@[i as int]);
            }
            if !self.tasks[i].is_done() {
                n = n + 1;
            }
            i = i + 1;
        }
        proof {
            assert(self@.take(self@.len() as int) =~= self@);
        }
        n
    }

    /// Replaces the text of the task at the 1-based index `idx`; its
    /// completion flag and every other task are untouched.  Rejects an
    /// index that is zero or past the end, leaving the list unchanged.
    pub fn edit_task(&mut self, idx: usize, text: String) -> (r: Result<(), TdError>)
        ensures
            valid_index(old(self)@.len(), idx) ==> r is Ok && final(self)@ == old(self)@.update(
                idx - 1,
                TaskView { done: old(self)@[idx - 1].done, text: text@ },
            ),
            !valid_index(old(self)@.len(), idx) ==> r == Err::<(), TdError>(TdError::InvalidIndex)
                && final(self)@ == old(self)@,
    {
        if idx == 0 || idx > self.tasks.len() {
            return Err(TdError::InvalidIndex);
        }
        let ghost pre = self@;
        self.tasks[idx - 1].edit(text);
        proof {
            assert(self@ =~= pre.update(
                idx - 1,
                TaskView { done: pre[idx - 1].done, text: text@ },
            ));
        }
        Ok(())
    }

    /// Sets the completion flag at the 1-based index `idx` (idempotent:
    /// marking a done task done again changes nothing).  Rejects an index
    /// that is zero or past the end, leaving the list unchanged.
    pub fn mark_done(&mut self, idx: usize) -> (r: Result<(), TdError>)
        ensures
            valid_index(old(self)@.len(), idx) ==> r is Ok && final(self)@ == mark_spec(
                old(self)@,
                idx,
                true,
            ),
            !valid_index(old(self)@.len(), idx) ==> r == Err::<(), TdError>(TdError::InvalidIndex)
                && final(self)@ == old(self)@,
    {
        if idx == 0 || idx > self.tasks.len() {
            return Err(TdError::InvalidIndex);
        }
        let ghost pre = self@;
        if !self.tasks[idx - 1].is_done() {
            self.tasks[idx - 1].toggle_done();
        }
        proof {
            assert(self@ =~= mark_spec(pre, idx, true));
        }
        Ok(())
    }

    /// Clears the completion flag at the 1-based index `idx` (idempotent).
    /// Rejects an index that is zero or past the end, leaving the list
    /// unchanged.
    pub fn mark_undone(&mut self, idx: usize) -> (r: Result<(), TdError>)
        ensures
            valid_index(old(self)@.len(), idx) ==> r is Ok && final(self)@ == mark_spec(
                old(self)@,
                idx,
                false,
            ),
            !valid_index(old(self)@.len(), idx) ==> r == Err::<(), TdError>(TdError::InvalidIndex)
                && final(self)@ == old(self)@,
    {
        if idx == 0 || idx > self.tasks.len() {
            return Err(TdError::InvalidIndex);
        }
        let ghost pre = self@;
        if self.tasks[idx - 1].is_done() {
            self.tasks[idx - 1].toggle_done();
        }
        proof {
            assert(self@ =~= mark_spec(pre, idx, false));
        }
        Ok(())
    }
    /// Removes the tasks at the given 1-based positions, all or nothing:
    /// every index is validated before any removal, duplicates collapse,
    /// and the surviving tasks keep their relative order.  An empty batch
    /// succeeds and changes nothing.
    pub fn remove_tasks(&mut self, indices: &[usize]) -> (r: Result<(), TdError>)
        ensures
            (forall|j: int|
                0 <= j < indices@.len() ==> valid_index(old(self)@.len(), indices@[j])) ==> r is Ok
                && final(self)@ == remove_marked(old(self)@, indices@),
            (exists|j: int|
                0 <= j < indices@.len() && !valid_index(old(self)@.len(), indices@[j])) ==> r
                == Err::<(), TdError>(TdError::InvalidIndex) && final(self)@ == old(self)@,
    {
        let mut j: usize = 0;
        while j < indices.len()
            invariant
                j <= indices@.len(),
                forall|k: int| 0 <= k < j ==> valid_index(self@.len(), indices@[k]),
            decreases indices@.len() - j,
        {
            let idx = indices[j];
            if idx == 0 || idx > self.tasks.len() {
                return Err(TdError::InvalidIndex);
            }
            j = j + 1;
        }
        let ghost pre = self@;
        let mut kept: Vec<Task> = Vec::new();
        let mut i: usize = 0;
        while i < self.tasks.len()
            invariant
                i <= self.tasks@.len(),
                self@.len() == self.tasks@.len(),
                Seq::new(kept@.len(), |t: int| kept@[t]@) =~= remove_marked(
                    self@.take(i as int),
                    indices@,
                ),
            decreases self.tasks@.len() - i,
        {
            proof {
                assert(self@.take(i + 1).drop_last() =~= self@.take(i as int));
                assert(self@.take(i + 1).last() == self@[i as int]);
            }
            let ghost kept_pre = Seq::new(kept@.len(), |t: int| kept@[t]@);
            if !contains_position(indices, i + 1) {
                kept.push(self.tasks[i].clone());
                proof {
                    assert(Seq::new(kept@.len(), |t: int| kept@[t]@) =~= kept_pre.push(
                        self@[i as int],
                    ));
                }
            }
            i = i + 1;
        }
        proof {
            assert(self@.take(self@.len() as int) =~= self@);
        }
        self.tasks = kept;
        proof {
            assert(self@ =~= remove_marked(pre, indices@));
        }
        Ok(())
    }

    /// The display view of the list: for each task, its 1-based index,
    /// its completion flag and a copy of its text, in list order.
    pub fn list_tasks(&self) -> (r: Vec<(usize, bool, String)>)
        ensures
            r@.len() == self@.len(),
            forall|i: int|
                0 <= i < self@.len() ==> r@[i].0 as int == i + 1 && r@[i].1 == self@[i].done
                    && r@[i].2@ == self@[i].text,
    {
        let mut out: Vec<(usize, bool, String)> = Vec::new();
        let mut i: usize = 0;
        while i < self.tasks.len()
            invariant
                i <= self.tasks@.len(),
                self@.len() == self.tasks@.len(),
                out@.len() == i,
                forall|k: int|
                    0 <= k < i ==> out@[k].0 as int == k + 1 && out@[k].1 == self@[k].done
                        && out@[k].2@ == self@[k].text,
            decreases self.tasks@.len() - i,
        {
            let done = self.tasks[i].is_done();
            let text = self.tasks[i].text().clone();
            out.push((i + 1, done, text));
            i = i + 1;
        }
        out
    }
}

impl Clone for TaskList {
    fn clone(&self) -> (r: Self)
        ensures
            r@ == self@,
    {
        let mut tasks: Vec<Task> = Vec::new();
        let mut i: usize = 0;
        while i < self.tasks.len()
            invariant
                i <= self.tasks@.len(),
                tasks@.len() == i,
                forall|k: int| 0 <= k < i ==> tasks@[k]@ == self.tasks@[k]@,
            decreases self.tasks@.len() - i,
        {
            tasks.push(self.tasks[i].clone());
            i = i + 1;
        }
        let r = TaskList { tasks };
        proof {
            assert(r@ =~= self@);
        }
        r
    }
}

/// True when the 1-based position `pos` occurs in the slice `indices`.
fn contains_position(indices: &[usize], pos: usize) -> (r: bool)
    ensures
        r == contains_index(indices@, pos as int),
{
    let mut j: usize = 0;
    while j < indices.len()
        invariant
            j <= indices@.len(),
            forall|k: int| 0 <= k < j ==> indices@[k] as int != pos as int,
        decreases indices@.len() - j,
    {
        if indices[j] == pos {
            return true;
        }
        j = j + 1;
    }
    false
}

/// Removing an empty batch of positions (`remove_tasks` with no
/// indices) keeps the list exactly as it was.
pub proof fn lemma_remove_marked_empty(s: Seq<TaskView>, idxs: Seq<usize>)
    requires
        idxs.len() == 0,
    ensures
        remove_marked(s, idxs) == s,
    decreases s.len(),
{
    if s.len() > 0 {
        lemma_remove_marked_empty(s.drop_last(), idxs);
        assert(remove_marked(s, idxs) =~= s);
    } else {
        assert(remove_marked(s, idxs) =~= s);
    }
}

/// Setting a completion flag is idempotent: `mark_done` and
/// `mark_undone` land on `mark_spec`, and marking the same 1-based
/// position a second time with the same target state changes nothing.
pub proof fn lemma_mark_idempotent(s: Seq<TaskView>, idx: usize, done: bool)
    requires
        valid_index(s.len(), idx),
    ensures
        mark_spec(mark_spec(s, idx, done), idx, done) == mark_spec(s, idx, done),
{
    assert(mark_spec(mark_spec(s, idx, done), idx, done) =~= mark_spec(s, idx, done));
}

/// On a five-task list, removing the batch {2, 2, 4} drops exactly the
/// tasks originally at positions 2 and 4 (the duplicate collapses) and
/// keeps the other three in their original order.
pub proof fn lemma_remove_two_two_four(s: Seq<TaskView>)
    requires
        s.len() == 5,
    ensures
        remove_marked(s, seq![2usize, 2usize, 4usize]) == seq![s[0], s[2], s[4]],
{
    let idxs = seq![2usize, 2usize, 4usize];
    assert(contains_index(idxs, 2)) by {
        assert(idxs[0] as int == 2);
    }
    assert(contains_index(idxs, 4)) by {
        assert(idxs[2] as int == 4);
    }
    assert(!contains_index(idxs, 1));
    assert(!contains_index(idxs, 3));
    assert(!contains_index(idxs, 5));
    let s1 = s.drop_last();
    let s2 = s1.drop_last();
    let s3 = s2.drop_last();
    let s4 = s3.drop_last();
    let s5 = s4.drop_last();
    assert(s5.len() == 0);
    assert(remove_marked(s5, idxs) =~= Seq::<TaskView>::empty());
    assert(s4.last() == s[0] && s4.len() == 1);
    assert(remove_marked(s4, idxs) =~= seq![s[0]]);
    assert(s3.len() == 2);
    assert(remove_marked(s3, idxs) =~= seq![s[0]]);
    assert(s2.last() == s[2] && s2.len() == 3);
    assert(remove_marked(s2, idxs) =~= seq![s[0], s[2]]);
    assert(s1.len() == 4);
    assert(remove_marked(s1, idxs) =~= seq![s[0], s[2]]);
    assert(s.last() == s[4]);
    assert(remove_marked(s, idxs) =~= seq![s[0], s[2], s[4]]);
}

} // verus!

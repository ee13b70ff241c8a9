//! An explicit call stack for running the recursive operations as a loop: each frame records
//! a task, how far it got, and the subtasks it waits for; finished tasks keep their results.
use crate::node::BddPointer;
use crate::tables::{fx_task_table_get, fx_task_table_insert, fx_task_table_new, FxTaskTable, TaskKey};
use vstd::prelude::*;

verus! {

/// A pair of operands to combine.
#[derive(Clone, Copy, Debug, PartialEq, Eq, Hash, Structural)]
pub struct Task {
    pub left: BddPointer,
    pub right: BddPointer,
}

pub open spec fn task_key(t: Task) -> TaskKey {
    (t.left.0, t.right.0)
}

/// What a frame hands back when it resumes: its stage and the results of its subtasks.
pub struct TaskState {
    pub stage: usize,
    pub first: Option<BddPointer>,
    pub second: Option<BddPointer>,
}

/// The result of `t`, looked up among the finished tasks.
pub open spec fn result_of(finished: Map<TaskKey, BddPointer>, t: Option<Task>) -> Option<
    BddPointer,
> {
    match t {
        Some(t) => Some(finished[task_key(t)]),
        None => None,
    }
}

/// `t`, if any, is finished.
pub open spec fn is_done(finished: Map<TaskKey, BddPointer>, t: Option<Task>) -> bool {
    match t {
        Some(t) => finished.contains_key(task_key(t)),
        None => true,
    }
}

impl TaskState {
    fn from_inner(inner: &TaskStateInner, finished: &FxTaskTable) -> (r: Self)
        requires
            is_done(finished@, inner.first),
            is_done(finished@, inner.second),
        ensures
            r.stage == inner.stage,
            r.first == result_of(finished@, inner.first),
            r.second == result_of(finished@, inner.second),
    {
        let first = match inner.first {
            Some(t) => fx_task_table_get(finished, &(t.left.0, t.right.0)),
            None => None,
        };
        let second = match inner.second {
            Some(t) => fx_task_table_get(finished, &(t.left.0, t.right.0)),
            None => None,
        };
        Self { stage: inner.stage, first, second }
    }
}

/// A frame's progress: its stage and the subtasks it waits for.
pub struct TaskStateInner {
    pub stage: usize,
    pub first: Option<Task>,
    pub second: Option<Task>,
}

/// One frame of the stack.
pub struct Call {
    pub task: Task,
    pub state: TaskStateInner,
}

impl Call {
    /// A frame for `task` at stage zero, waiting for nothing.
    pub fn new(task: Task) -> (r: Self)
        ensures
            r.task == task,
            r.state.stage == 0,
            r.state.first is None,
            r.state.second is None,
    {
        Self { task, state: TaskStateInner { stage: 0, first: None, second: None } }
    }
}

/// A subtask that a frame waits for is finished, or still has a frame above it.
pub open spec fn awaited(
    calls: Seq<Call>,
    finished: Map<TaskKey, BddPointer>,
    i: int,
    t: Option<Task>,
) -> bool {
    match t {
        Some(t) => finished.contains_key(task_key(t)) || exists|j: int|
            i < j < calls.len() && #[trigger] calls[j].task == t,
        None => true,
    }
}

/// Waiting is kept when the frames keep their tasks.
proof fn lemma_awaited_same_tasks(
    c1: Seq<Call>,
    c2: Seq<Call>,
    finished: Map<TaskKey, BddPointer>,
    i: int,
    t: Option<Task>,
)
    requires
        0 <= i,
        c1.len() == c2.len(),
        forall|j: int| 0 <= j < c2.len() ==> #[trigger] c2[j].task == c1[j].task,
        awaited(c1, finished, i, t),
    ensures
        awaited(c2, finished, i, t),
{
    if let Some(t) = t {
        if !finished.contains_key(task_key(t)) {
            let j = choose|j: int| i < j < c1.len() && #[trigger] c1[j].task == t;
            assert(c2[j].task == t);
        }
    }
}

/// The stack of frames, and the results of the tasks finished so far.
pub struct ManualStack {
    stack: Vec<Call>,
    finished: FxTaskTable,
}

impl ManualStack {
    pub closed spec fn calls(&self) -> Seq<Call> {
        self.stack@
    }

    pub closed spec fn finished(&self) -> Map<TaskKey, BddPointer> {
        self.finished@
    }

    /// Every subtask that a frame waits for is finished or still on the stack above it, so a
    /// frame on top finds the results of all it waits for.
    pub open spec fn wf(&self) -> bool {
        forall|i: int|
            0 <= i < self.calls().len() ==> awaited(
                self.calls(),
                self.finished(),
                i,
                #[trigger] self.calls()[i].state.first,
            ) && awaited(self.calls(), self.finished(), i, self.calls()[i].state.second)
    }

    /// A stack that holds one frame, for `task`.
    pub fn new(task: Task, capacity: usize) -> (r: Self)
        ensures
            r.wf(),
            r.calls().len() == 1,
            r.calls()[0].task == task,
            r.calls()[0].state.stage == 0,
            r.calls()[0].state.first is None,
            r.calls()[0].state.second is None,
            r.finished().dom() == Set::<TaskKey>::empty(),
    {
        let mut stack = Vec::with_capacity(capacity);
        stack.push(Call::new(task));
        Self { stack, finished: fx_task_table_new(capacity) }
    }

    /// Drops the finished frames from the top and hands out the task of the frame left on top
    /// with its state, or `None` once the stack is empty.
    pub fn handle(&mut self) -> (r: Option<(Task, TaskState)>)
        requires
            old(self).wf(),
        ensures
            final(self).wf(),
            final(self).finished() == old(self).finished(),
            final(self).calls().len() <= old(self).calls().len(),
            final(self).calls() == old(self).calls().subrange(0, final(self).calls().len() as int),
            forall|i: int|
                final(self).calls().len() <= i < old(self).calls().len()
                    ==> old(self).finished().contains_key(task_key(#[trigger] old(self).calls()[i].task)),
            r is None <==> final(self).calls().len() == 0,
            r matches Some((t, st)) ==> {
                let top = final(self).calls().last();
                &&& final(self).calls().len() > 0
                &&& t == top.task
                &&& !final(self).finished().contains_key(task_key(t))
                &&& st.stage == top.state.stage
                &&& st.first == result_of(final(self).finished(), top.state.first)
                &&& st.second == result_of(final(self).finished(), top.state.second)
            },
    {
        let ghost start = *self;
        loop
            invariant
                start == *old(self),
                self.wf(),
                self.finished() == start.finished(),
                self.calls().len() <= start.calls().len(),
                self.calls() == start.calls().subrange(0, self.calls().len() as int),
                forall|i: int|
                    self.calls().len() <= i < start.calls().len() ==> start.finished().contains_key(
                        task_key(#[trigger] start.calls()[i].task),
                    ),
            decreases self.calls().len(),
        {
            let n = self.stack.len();
            if n == 0 {
                return None;
            }
            let task = self.stack[n - 1].task;
            if fx_task_table_get(&self.finished, &(task.left.0, task.right.0)).is_some() {
                let ghost before = *self;
                self.stack.pop();
                proof {
                    assert forall|i: int| 0 <= i < self.calls().len() implies awaited(
                        self.calls(),
                        self.finished(),
                        i,
                        #[trigger] self.calls()[i].state.first,
                    ) && awaited(self.calls(), self.finished(), i, self.calls()[i].state.second) by {
                        assert(before.calls()[i] == self.calls()[i]);
                        assert(awaited(before.calls(), before.finished(), i, before.calls()[i].state.first));
                        assert(awaited(before.calls(), before.finished(), i, before.calls()[i].state.second));
                        if let Some(t) = self.calls()[i].state.first {
                            if !self.finished().contains_key(task_key(t)) {
                                let j = choose|j: int| i < j < before.calls().len() && #[trigger] before.calls()[j].task == t;
                                assert(j < n - 1);
                                assert(self.calls()[j].task == t);
                            }
                        }
                        if let Some(t) = self.calls()[i].state.second {
                            if !self.finished().contains_key(task_key(t)) {
                                let j = choose|j: int| i < j < before.calls().len() && #[trigger] before.calls()[j].task == t;
                                assert(j < n - 1);
                                assert(self.calls()[j].task == t);
                            }
                        }
                    }
                    assert(self.calls() =~= start.calls().subrange(0, self.calls().len() as int));
                }
            } else {
                proof {
                    let top = n - 1;
                    assert(awaited(self.calls(), self.finished(), top as int, self.calls()[top as int].state.first));
                    assert(awaited(self.calls(), self.finished(), top as int, self.calls()[top as int].state.second));
                }
                let state = TaskState::from_inner(&self.stack[n - 1].state, &self.finished);
                return Some((task, state));
            }
        }
    }

    /// Moves the frame on top to its next stage.
    pub fn pump_stage(&mut self)
        requires
            old(self).calls().len() > 0,
            old(self).calls().last().state.stage < usize::MAX,
        ensures
            final(self).finished() == old(self).finished(),
            final(self).calls().len() == old(self).calls().len(),
            final(self).calls().drop_last() == old(self).calls().drop_last(),
            final(self).calls().last().task == old(self).calls().last().task,
            final(self).calls().last().state.stage == old(self).calls().last().state.stage + 1,
            final(self).calls().last().state.first == old(self).calls().last().state.first,
            final(self).calls().last().state.second == old(self).calls().last().state.second,
            old(self).wf() ==> final(self).wf(),
    {
        let ghost before = *self;
        let call = self.stack.pop().unwrap();
        let state = TaskStateInner {
            stage: call.state.stage + 1,
            first: call.state.first,
            second: call.state.second,
        };
        self.stack.push(Call { task: call.task, state });
        proof {
            assert(self.calls().drop_last() =~= before.calls().drop_last());
            assert forall|j: int| 0 <= j < self.calls().len() implies #[trigger] self.calls()[j].task == before.calls()[j].task by {
                if j < self.calls().len() - 1 {
                    assert(self.calls()[j] == self.calls().drop_last()[j]);
                    assert(before.calls()[j] == before.calls().drop_last()[j]);
                }
            }
            if before.wf() {
                assert forall|i: int| 0 <= i < self.calls().len() implies awaited(
                    self.calls(),
                    self.finished(),
                    i,
                    #[trigger] self.calls()[i].state.first,
                ) && awaited(self.calls(), self.finished(), i, self.calls()[i].state.second) by {
                    if i < self.calls().len() - 1 {
                        assert(self.calls()[i] == self.calls().drop_last()[i]);
                        assert(before.calls()[i] == before.calls().drop_last()[i]);
                    }
                    assert(awaited(before.calls(), before.finished(), i, before.calls()[i].state.first));
                    assert(awaited(before.calls(), before.finished(), i, before.calls()[i].state.second));
                    lemma_awaited_same_tasks(before.calls(), self.calls(), self.finished(), i, self.calls()[i].state.first);
                    lemma_awaited_same_tasks(before.calls(), self.calls(), self.finished(), i, self.calls()[i].state.second);
                }
            }
        }
    }

    /// The frame on top waits, at `stage`, for `first` and, if given, `second`; frames for the
    /// two are pushed, `first` on top.
    pub fn call(&mut self, stage: usize, first: Task, second: Option<Task>)
        requires
            old(self).wf(),
            old(self).calls().len() > 0,
        ensures
            final(self).wf(),
            final(self).finished() == old(self).finished(),
            ({
                let n = old(self).calls().len() as int;
                let caller = final(self).calls()[n - 1];
                &&& final(self).calls().subrange(0, n - 1) == old(self).calls().drop_last()
                &&& caller.task == old(self).calls().last().task
                &&& caller.state.stage == stage
                &&& caller.state.first == Some(first)
                &&& caller.state.second == second
                &&& final(self).calls().last().task == first
                &&& final(self).calls().last().state.stage == 0
                &&& final(self).calls().last().state.first is None
                &&& final(self).calls().last().state.second is None
                &&& final(self).calls().len() == n + 1 + if second is Some {
                    1int
                } else {
                    0
                }
                &&& second matches Some(t) ==> final(self).calls()[n].task == t
                    && final(self).calls()[n].state.stage == 0
                    && final(self).calls()[n].state.first is None
                    && final(self).calls()[n].state.second is None
            }),
    {
        let ghost before = *self;
        let this = self.stack.pop().unwrap();
        self.stack.push(
            Call { task: this.task, state: TaskStateInner { stage, first: Some(first), second } },
        );
        let ghost mid = *self;
        if let Some(task) = second {
            self.stack.push(Call::new(task));
        }
        self.stack.push(Call::new(first));
        proof {
            let n = before.calls().len() as int;
            assert(self.calls().subrange(0, n - 1) =~= before.calls().drop_last());
            assert forall|i: int| 0 <= i < self.calls().len() implies awaited(
                self.calls(),
                self.finished(),
                i,
                #[trigger] self.calls()[i].state.first,
            ) && awaited(self.calls(), self.finished(), i, self.calls()[i].state.second) by {
                if i < n - 1 {
                    assert(self.calls()[i] == before.calls()[i]);
                    assert(awaited(before.calls(), before.finished(), i, before.calls()[i].state.first));
                    assert(awaited(before.calls(), before.finished(), i, before.calls()[i].state.second));
                    if let Some(t) = self.calls()[i].state.first {
                        if !self.finished().contains_key(task_key(t)) {
                            let j = choose|j: int| i < j < before.calls().len() && #[trigger] before.calls()[j].task == t;
                            assert(self.calls()[j].task == t);
                        }
                    }
                    if let Some(t) = self.calls()[i].state.second {
                        if !self.finished().contains_key(task_key(t)) {
                            let j = choose|j: int| i < j < before.calls().len() && #[trigger] before.calls()[j].task == t;
                            assert(self.calls()[j].task == t);
                        }
                    }
                } else if i == n - 1 {
                    let last = self.calls().len() - 1;
                    assert(self.calls()[last].task == first);
                    if let Some(t) = second {
                        assert(self.calls()[n].task == t);
                    }
                }
            }
        }
    }

    /// Finishes the task on top with `value` and drops its frame.
    pub fn ret(&mut self, value: BddPointer)
        requires
            old(self).wf(),
            old(self).calls().len() > 0,
            !old(self).finished().contains_key(task_key(old(self).calls().last().task)),
        ensures
            final(self).wf(),
            final(self).calls() == old(self).calls().drop_last(),
            final(self).finished() == old(self).finished().insert(
                task_key(old(self).calls().last().task),
                value,
            ),
    {
        let ghost before = *self;
        let call = self.stack.pop().unwrap();
        fx_task_table_insert(&mut self.finished, (call.task.left.0, call.task.right.0), value);
        proof {
            let n = before.calls().len() as int;
            assert forall|i: int| 0 <= i < self.calls().len() implies awaited(
                self.calls(),
                self.finished(),
                i,
                #[trigger] self.calls()[i].state.first,
            ) && awaited(self.calls(), self.finished(), i, self.calls()[i].state.second) by {
                assert(self.calls()[i] == before.calls()[i]);
                assert(awaited(before.calls(), before.finished(), i, before.calls()[i].state.first));
                assert(awaited(before.calls(), before.finished(), i, before.calls()[i].state.second));
                if let Some(t) = self.calls()[i].state.first {
                    if !self.finished().contains_key(task_key(t)) {
                        let j = choose|j: int| i < j < before.calls().len() && #[trigger] before.calls()[j].task == t;
                        assert(j != n - 1);
                        assert(self.calls()[j].task == t);
                    }
                }
                if let Some(t) = self.calls()[i].state.second {
                    if !self.finished().contains_key(task_key(t)) {
                        let j = choose|j: int| i < j < before.calls().len() && #[trigger] before.calls()[j].task == t;
                        assert(j != n - 1);
                        assert(self.calls()[j].task == t);
                    }
                }
            }
        }
    }
}

} // verus!

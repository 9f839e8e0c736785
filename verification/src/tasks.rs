//! The task that is under way, and how it is cancelled.

use vstd::prelude::*;
use vstd::string::*;

use crate::text::Text;

verus! {

/// The tasks of the application as a mathematical value: for every task that was begun, whether it
/// was cancelled, and the task that is under way.
pub struct Tasks {
    pub cancelled: Seq<bool>,
    pub active: Option<int>,
}

impl Tasks {
    /// The active task is one that was begun.
    pub open spec fn wf(self) -> bool {
        match self.active {
            Some(token) => 0 <= token < self.cancelled.len(),
            None => true,
        }
    }

    /// After a new task began.
    pub open spec fn begun(self) -> Tasks {
        Tasks {
            cancelled: self.cancelled.push(false),
            active: Some(self.cancelled.len() as int),
        }
    }

    /// After a task ended.
    pub open spec fn cleared(self, token: int) -> Tasks {
        Tasks {
            active: if self.active == Some(token) {
                None
            } else {
                self.active
            },
            ..self
        }
    }

    /// After the active task was cancelled.
    pub open spec fn stopped(self) -> Tasks {
        match self.active {
            Some(token) => Tasks { cancelled: self.cancelled.update(token, true), ..self },
            None => self,
        }
    }
}

/// The state of the application: where its database is, and its tasks.
pub struct AppStateInner {
    db_path: String,
    cancelled: Vec<bool>,
    active: Option<usize>,
}

impl View for AppStateInner {
    type V = Tasks;

    closed spec fn view(&self) -> Tasks {
        Tasks {
            cancelled: self.cancelled@,
            active: match self.active {
                Some(token) => Some(token as int),
                None => None,
            },
        }
    }
}

impl AppStateInner {
    /// Where the database is.
    pub closed spec fn location(self) -> Text {
        self.db_path@
    }

    /// Where the database is.
    pub fn db_path(&self) -> (r: &str)
        ensures
            r@ == self.location(),
    {
        self.db_path.as_str()
    }

    /// No task was begun yet.
    pub fn new(db_path: String) -> (r: Self)
        ensures
            r.location() == db_path@,
            r@.wf(),
            r@.cancelled.len() == 0,
            r@.active is None,
    {
        AppStateInner { db_path, cancelled: Vec::new(), active: None }
    }

    /// How many tasks were begun.
    pub fn task_count(&self) -> (r: usize)
        ensures
            r == self@.cancelled.len(),
    {
        self.cancelled.len()
    }

    /// Begins a task, which is then the active one, and gives its token.
    pub fn begin_task(&mut self) -> (r: usize)
        requires
            old(self)@.wf(),
            old(self)@.cancelled.len() < usize::MAX,
        ensures
            final(self)@.wf(),
            final(self)@ == old(self)@.begun(),
            final(self)@.active == Some(r as int),
            final(self).location() == old(self).location(),
    {
        let token = self.cancelled.len();
        self.cancelled.push(false);
        self.active = Some(token);
        token
    }

    /// Ends a task. Another task that is active meanwhile goes on.
    pub fn clear_task(&mut self, token: usize)
        requires
            old(self)@.wf(),
        ensures
            final(self)@.wf(),
            final(self)@ == old(self)@.cleared(token as int),
            final(self).location() == old(self).location(),
    {
        let current = match self.active {
            Some(active) => active == token,
            None => false,
        };
        if current {
            self.active = None;
        }
    }

    /// Cancels the active task; false if there is none.
    pub fn cancel_task(&mut self) -> (r: bool)
        requires
            old(self)@.wf(),
        ensures
            final(self)@.wf(),
            final(self)@ == old(self)@.stopped(),
            r == (old(self)@.active is Some),
            final(self).location() == old(self).location(),
    {
        match self.active {
            Some(token) => {
                self.cancelled.set(token, true);
                true
            },
            None => false,
        }
    }

    /// Whether a task was cancelled.
    pub fn is_cancelled(&self, token: usize) -> (r: bool)
        requires
            token < self@.cancelled.len(),
        ensures
            r == self@.cancelled[token as int],
    {
        self.cancelled[token]
    }
}

/// A cancellation reaches the task that was begun last, and no other.
pub proof fn law_cancel_reaches_latest(tasks: Tasks, other: int)
    requires
        tasks.wf(),
    ensures
        tasks.begun().stopped().cancelled[tasks.cancelled.len() as int],
        0 <= other < tasks.cancelled.len() ==> tasks.begun().stopped().cancelled[other]
            == tasks.cancelled[other],
{
}

/// The end of a task does not touch a task that was begun after it: that one stays active, and can be
/// cancelled.
pub proof fn law_clear_spares_later(tasks: Tasks, token: int)
    requires
        tasks.wf(),
        0 <= token < tasks.cancelled.len(),
    ensures
        tasks.begun().cleared(token) == tasks.begun(),
        tasks.begun().cleared(token).stopped().cancelled[tasks.cancelled.len() as int],
{
}

/// After the end of the active task there is nothing to cancel.
pub proof fn law_nothing_left_to_cancel(tasks: Tasks)
    requires
        tasks.wf(),
    ensures
        ({
            let ended = tasks.begun().cleared(tasks.cancelled.len() as int);
            ended.active is None && ended.stopped() == ended
        }),
{
}

/// To cancel ends no task: the latest one stays the latest one until it is cleared, and to cancel again
/// changes nothing.
pub proof fn law_cancel_keeps_latest(tasks: Tasks)
    requires
        tasks.wf(),
    ensures
        tasks.stopped().active == tasks.active,
        tasks.stopped().stopped() == tasks.stopped(),
        tasks.stopped().cancelled.len() == tasks.cancelled.len(),
        match tasks.active {
            Some(token) => tasks.cleared(token).active is None && tasks.cleared(token).cancelled
                == tasks.cancelled,
            None => tasks.stopped() == tasks,
        },
{
    match tasks.active {
        Some(token) => {
            assert(tasks.stopped().stopped().cancelled =~= tasks.stopped().cancelled);
        },
        None => {},
    }
}

} // verus!

use vstd::prelude::*;
use crate::graph::TaskId;
use crate::text::{opt_view, push_decimal, push_str, spec_decimal, str_to_string};

verus! {

/// The error that a run, an asynchronous task or a pipeline reports.
pub struct FlowError {
    task_id: Option<TaskId>,
    task_name: Option<String>,
    message: String,
}

/// The text `task {id} ({name}) failed: {message}`, `task {id} failed: {message}`
/// or the bare message, depending on what is known about the failing task.
pub open spec fn spec_error_text(
    task_id: Option<TaskId>,
    task_name: Option<Seq<char>>,
    message: Seq<char>,
) -> Seq<char> {
    match task_id {
        Some(id) => match task_name {
            Some(name) => "task "@ + spec_decimal(id.0 as nat) + " ("@ + name + ") failed: "@
                + message,
            None => "task "@ + spec_decimal(id.0 as nat) + " failed: "@ + message,
        },
        None => message,
    }
}

impl FlowError {
    pub closed spec fn spec_task_id(&self) -> Option<TaskId> {
        self.task_id
    }

    pub closed spec fn spec_task_name(&self) -> Option<Seq<char>> {
        opt_view(self.task_name)
    }

    pub closed spec fn spec_message(&self) -> Seq<char> {
        self.message@
    }

    /// The error of a task that panicked with the given message.
    pub fn panic(task_id: TaskId, task_name: Option<&str>, message: String) -> (e: Self)
        ensures
            e.spec_task_id() == Some(task_id),
            e.spec_task_name() == (match task_name {
                Some(n) => Some(n@),
                None => None::<Seq<char>>,
            }),
            e.spec_message() == message@,
    {
        let name = match task_name {
            Some(n) => Some(str_to_string(n)),
            None => None,
        };
        FlowError { task_id: Some(task_id), task_name: name, message }
    }

    /// An error that no task is named in.
    pub fn plain(message: &str) -> (e: Self)
        ensures
            e.spec_task_id() == None::<TaskId>,
            e.spec_task_name() == None::<Seq<char>>,
            e.spec_message() == message@,
    {
        FlowError { task_id: None, task_name: None, message: str_to_string(message) }
    }

    pub fn task_id(&self) -> (r: Option<TaskId>)
        ensures
            r == self.spec_task_id(),
    {
        self.task_id
    }

    pub fn task_name(&self) -> (r: Option<&str>)
        ensures
            match r {
                Some(n) => self.spec_task_name() == Some(n@),
                None => self.spec_task_name() == None::<Seq<char>>,
            },
    {
        match &self.task_name {
            Some(n) => Some(n.as_str()),
            None => None,
        }
    }

    pub fn message(&self) -> (r: &str)
        ensures
            r@ == self.spec_message(),
    {
        self.message.as_str()
    }

    /// A copy of this error.
    pub fn duplicate(&self) -> (e: Self)
        ensures
            e.spec_task_id() == self.spec_task_id(),
            e.spec_task_name() == self.spec_task_name(),
            e.spec_message() == self.spec_message(),
    {
        let name = match &self.task_name {
            Some(n) => Some(n.clone()),
            None => None,
        };
        FlowError { task_id: self.task_id, task_name: name, message: self.message.clone() }
    }

    /// The human-readable description of the error.
    pub fn to_display_string(&self) -> (s: String)
        ensures
            s@ == spec_error_text(self.spec_task_id(), self.spec_task_name(), self.spec_message()),
    {
        let mut s = String::new();
        match self.task_id {
            Some(id) => {
                push_str(&mut s, "task ");
                push_decimal(&mut s, id.0 as u64);
                match &self.task_name {
                    Some(name) => {
                        push_str(&mut s, " (");
                        push_str(&mut s, name.as_str());
                        push_str(&mut s, ") failed: ");
                    },
                    None => {
                        push_str(&mut s, " failed: ");
                    },
                }
                push_str(&mut s, self.message.as_str());
                proof {
                    reveal_strlit("task ");
                    reveal_strlit(" (");
                    reveal_strlit(") failed: ");
                    reveal_strlit(" failed: ");
                    assert(s@ =~= spec_error_text(
                        self.spec_task_id(),
                        self.spec_task_name(),
                        self.spec_message(),
                    ));
                }
                s
            },
            None => {
                push_str(&mut s, self.message.as_str());
                proof {
                    assert(s@ =~= self.message@);
                }
                s
            },
        }
    }
}

} // verus!

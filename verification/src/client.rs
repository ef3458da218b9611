//! The browser-side state machine.
//!
//! One session holds a `ToDoState`: the task list as last confirmed, a
//! `loading` flag while a request is in flight, and the last error message.
//! A user action becomes a `Task` (the pending mutation); `begin` validates
//! it and moves the machine into its loading state, and `complete` folds the
//! server's answer back in. The surrounding view performs the actual network
//! call between the two.
use vstd::prelude::*;

use crate::ToDo;

verus! {

/// Raised locally when a mutation carries an empty note; no request is
/// issued for such a task.
pub const EMPTY_TODO_MESSAGE: &'static str = "ToDo cannot be empty";

/// Whether the add/edit form is shown, and for which action.
#[derive(PartialEq, Clone)]
pub enum FormState {
    Hidden,
    Visible(ActionType),
}

impl FormState {
    pub fn new() -> (r: Self)
        ensures
            r == FormState::Hidden,
    {
        Self::Hidden
    }

    pub fn show_add_form(&mut self)
        ensures
            *final(self) == FormState::Visible(ActionType::Add),
    {
        *self = Self::Visible(ActionType::Add);
    }
}

/// The three mutating actions a user can commit.
#[derive(Clone, PartialEq)]
pub enum ActionType {
    Delete,
    Add,
    Update,
}

/// A pending mutation: exactly one request in flight, or the wholesale
/// replacement of the list by a fresh fetch.
#[derive(Clone)]
pub enum Task {
    Delete(ToDo),
    Add(ToDo),
    Update(ToDo),
    Loaded(Vec<ToDo>),
}

/// What a confirmed task does to the record list: delete drops every record
/// of the task's id, add appends, update replaces in place (a no-op when the
/// id is absent), and a loaded list replaces the records wholesale.
pub open spec fn apply_task(task: Task, todos: Seq<ToDo>) -> Seq<ToDo> {
    match task {
        Task::Delete(d) => todos.filter(keeps_other(d.id)),
        Task::Add(t) => todos.push(t),
        Task::Update(u) => Seq::new(
            todos.len(),
            |i: int| if todos[i].id == u.id { u } else { todos[i] },
        ),
        Task::Loaded(l) => l@,
    }
}

/// The predicate a delete keeps: every record whose id differs.
pub open spec fn keeps_other(id: usize) -> spec_fn(ToDo) -> bool {
    |x: ToDo| x.id != id
}

/// A mutation's text is valid when it is non-empty; a wholesale load carries
/// no text and is always valid.
pub open spec fn task_text_ok(task: Task) -> bool {
    match task {
        Task::Delete(t) => t.todo_info@.len() > 0,
        Task::Add(t) => t.todo_info@.len() > 0,
        Task::Update(t) => t.todo_info@.len() > 0,
        Task::Loaded(_) => true,
    }
}

impl Task {
    /// Applies this confirmed mutation to a record list.
    pub fn handle_task(&self, todos: &Vec<ToDo>) -> (r: Vec<ToDo>)
        ensures
            r@ == apply_task(*self, todos@),
    {
        match self {
            Self::Delete(d) => {
                let mut out: Vec<ToDo> = Vec::new();
                let mut i: usize = 0;
                while i < todos.len()
                    invariant
                        i <= todos@.len(),
                        out@ == todos@.take(i as int).filter(keeps_other(d.id)),
                    decreases todos@.len() - i,
                {
                    if todos[i].id != d.id {
                        out.push(todos[i].clone());
                    }
                    proof {
                        reveal(Seq::filter);
                        assert(todos@.take(i as int + 1).drop_last() =~= todos@.take(i as int));
                        assert(todos@.take(i as int + 1).last() == todos@[i as int]);
                    }
                    i = i + 1;
                }
                proof {
                    assert(todos@.take(todos@.len() as int) =~= todos@);
                }
                out
            },
            Self::Add(t) => {
                let mut out = clone_todos(todos);
                out.push(t.clone());
                out
            },
            Self::Update(u) => {
                let mut out: Vec<ToDo> = Vec::new();
                let mut i: usize = 0;
                while i < todos.len()
                    invariant
                        i <= todos@.len(),
                        out@.len() == i,
                        forall|k: int|
                            0 <= k < i ==> out@[k] == (if todos@[k].id == u.id {
                                *u
                            } else {
                                todos@[k]
                            }),
                    decreases todos@.len() - i,
                {
                    if todos[i].id == u.id {
                        out.push(u.clone());
                    } else {
                        out.push(todos[i].clone());
                    }
                    i = i + 1;
                }
                proof {
                    assert(out@ =~= apply_task(*self, todos@));
                }
                out
            },
            Self::Loaded(l) => clone_todos(l),
        }
    }
}

/// Copies a record list element by element.
fn clone_todos(v: &Vec<ToDo>) -> (r: Vec<ToDo>)
    ensures
        r@ == v@,
{
    let mut out: Vec<ToDo> = Vec::new();
    let mut i: usize = 0;
    while i < v.len()
        invariant
            i <= v@.len(),
            out@ == v@.take(i as int),
        decreases v@.len() - i,
    {
        out.push(v[i].clone());
        proof {
            assert(v@.take(i as int + 1) =~= v@.take(i as int).push(v@[i as int]));
        }
        i = i + 1;
    }
    proof {
        assert(v@.take(v@.len() as int) =~= v@);
    }
    out
}

/// Why an operation failed, surfaced to the user as one message.
pub enum TaskError {
    AddError,
    DeleteError,
    UpdateError,
    LoadError,
    GenericError(String),
}

/// The message each failure collapses to.
pub open spec fn task_error_message(e: TaskError) -> Seq<char> {
    match e {
        TaskError::DeleteError => "Failed to perform Delete Operation"@,
        TaskError::AddError => "Failed to perform Add Operation"@,
        TaskError::UpdateError => "Failed to perform Update Operation"@,
        TaskError::LoadError => "Failed to retireve ToDos"@,
        TaskError::GenericError(err) => err@,
    }
}

impl TaskError {
    pub fn return_task_error(&self) -> (r: String)
        ensures
            r@ == task_error_message(*self),
    {
        match self {
            Self::DeleteError => "Failed to perform Delete Operation".to_owned(),
            Self::AddError => "Failed to perform Add Operation".to_owned(),
            Self::UpdateError => "Failed to perform Update Operation".to_owned(),
            Self::LoadError => "Failed to retireve ToDos".to_owned(),
            Self::GenericError(err) => err.clone(),
        }
    }
}

/// Every failure of a named operation surfaces as a non-empty message; a
/// generic failure carries its detail string through unchanged.
pub proof fn lemma_error_message_nonempty(e: TaskError)
    requires
        (e matches TaskError::GenericError(d) ==> d@.len() > 0),
    ensures
        task_error_message(e).len() > 0,
{
    reveal_strlit("Failed to perform Delete Operation");
    reveal_strlit("Failed to perform Add Operation");
    reveal_strlit("Failed to perform Update Operation");
    reveal_strlit("Failed to retireve ToDos");
}

/// An event of the session: a mutation left in flight, a mutation confirmed,
/// or a failure.
pub enum Msg {
    OnGoing(Task),
    Done(Task),
    Error(TaskError),
}

/// One browser session's view of the task list.
pub struct ToDoState {
    pub todos: Vec<ToDo>,
    pub loading: bool,
    pub error: Option<String>,
}

impl ToDoState {
    /// The initial state: no records yet and a fetch already counted as in
    /// flight, so the view starts out loading.
    pub fn new() -> (r: Self)
        ensures
            r.todos@ == Seq::<ToDo>::empty(),
            r.loading,
            r.error is None,
    {
        Self { todos: Vec::new(), loading: true, error: None }
    }

    /// The state-transition function, called from a single control point:
    /// an in-flight event suspends the view, a confirmation applies the
    /// mutation and clears the error, a failure keeps the records exactly as
    /// they were and surfaces the message.
    pub fn reduce(self, msg: Msg) -> (r: Self)
        ensures
            (match msg {
                Msg::OnGoing(_) => r.todos@ == self.todos@ && r.loading && r.error is None,
                Msg::Done(task) => r.todos@ == apply_task(task, self.todos@) && !r.loading
                    && r.error is None,
                Msg::Error(e) => r.todos@ == self.todos@ && !r.loading && (r.error matches Some(m)
                    && m@ == task_error_message(e)),
            }),
    {
        match msg {
            Msg::OnGoing(_) => Self { loading: true, error: None, ..self },
            Msg::Done(task) => {
                let todos = task.handle_task(&self.todos);
                Self { todos, loading: false, error: None }
            },
            Msg::Error(e) => Self {
                loading: false,
                error: Some(e.return_task_error()),
                ..self
            },
        }
    }

    /// Commits a user action. An empty-text mutation is rejected before any
    /// request is issued: the records and the loading flag are left exactly
    /// as they were and only the validation message is surfaced. A second
    /// mutation while one is in flight is rejected without any change. Only
    /// otherwise does the machine enter its loading state, and the returned
    /// task is the single request the caller must issue.
    pub fn begin(self, task: Task) -> (r: (Self, Option<Task>))
        ensures
            !task_text_ok(task) ==> r.0.todos@ == self.todos@ && r.0.loading == self.loading && (
            r.0.error matches Some(m) && m@ == EMPTY_TODO_MESSAGE@) && r.1 is None,
            task_text_ok(task) && self.loading ==> r.0 == self && r.1 is None,
            task_text_ok(task) && !self.loading ==> r.0.todos@ == self.todos@ && r.0.loading
                && r.0.error is None && r.1 == Some(task),
    {
        let ok = match &task {
            Task::Delete(t) => !t.todo_info.as_str().is_empty(),
            Task::Add(t) => !t.todo_info.as_str().is_empty(),
            Task::Update(t) => !t.todo_info.as_str().is_empty(),
            Task::Loaded(_) => true,
        };
        if !ok {
            let loading = self.loading;
            (Self { loading, error: Some(EMPTY_TODO_MESSAGE.to_owned()), ..self }, None)
        } else if self.loading {
            (self, None)
        } else {
            (self.reduce(Msg::OnGoing(Task::Loaded(Vec::new()))), Some(task))
        }
    }

    /// Folds a listing response body into the session: a body that decodes
    /// replaces the records wholesale, and a decode failure surfaces the
    /// parse message with the records untouched.
    pub fn complete_fetch(self, body: &Vec<u8>) -> (r: Self)
        ensures
            !r.loading,
            (match crate::codec::spec_parse_todos(body@) {
                Some(items) => if crate::codec::items_all_ok(items) {
                    r.todos@.len() == items.len() && (forall|k: int|
                        0 <= k < items.len() ==> crate::codec::item_matches(
                            #[trigger] r.todos@[k],
                            items[k],
                        )) && r.error is None
                } else {
                    r.todos@ == self.todos@ && (r.error matches Some(m) && m@
                        == UNABLE_TO_PARSE_FROM_JSON@)
                },
                None => r.todos@ == self.todos@ && (r.error matches Some(m) && m@
                    == UNABLE_TO_PARSE_FROM_JSON@),
            }),
    {
        match crate::codec::parse_todo_list(body) {
            Some(list) => self.reduce(Msg::Done(Task::Loaded(list))),
            None => self.reduce(
                Msg::Error(TaskError::GenericError(UNABLE_TO_PARSE_FROM_JSON.to_owned())),
            ),
        }
    }

    /// Folds the server's answer to the one outstanding mutation back into
    /// the session: a confirmation applies it, a failure leaves the records
    /// untouched and surfaces the message.
    pub fn complete(self, task: Task, outcome: Result<(), TaskError>) -> (r: Self)
        ensures
            outcome is Ok ==> r.todos@ == apply_task(task, self.todos@) && !r.loading
                && r.error is None,
            (outcome matches Err(e) ==> r.todos@ == self.todos@ && !r.loading && (
            r.error matches Some(m) && m@ == task_error_message(e))),
    {
        match outcome {
            Ok(()) => self.reduce(Msg::Done(task)),
            Err(e) => self.reduce(Msg::Error(e)),
        }
    }
}

/// Deleting leaves no record of the deleted id, and every other record
/// survives in order.
pub proof fn lemma_delete_removes_id(d: ToDo, todos: Seq<ToDo>)
    ensures
        forall|i: int|
            0 <= i < apply_task(Task::Delete(d), todos).len()
                ==> #[trigger] apply_task(Task::Delete(d), todos)[i].id != d.id,
{
    broadcast use vstd::seq_lib::group_filter_ensures;

}

/// Updating a record whose id is absent is a no-op: the list is unchanged,
/// and in particular the record count stays the same.
pub proof fn lemma_update_absent_id_no_op(u: ToDo, todos: Seq<ToDo>)
    requires
        forall|i: int| 0 <= i < todos.len() ==> #[trigger] todos[i].id != u.id,
    ensures
        apply_task(Task::Update(u), todos) == todos,
{
    assert(apply_task(Task::Update(u), todos) =~= todos);
}

/// The list the view renders after a loaded fetch, or the failure shown.
#[derive(PartialEq, Clone)]
pub enum ToDoListState {
    Loading,
    Loaded(Vec<ToDo>),
    ErrorToDo(String),
}

/// Shown when a listing response cannot be decoded.
pub const UNABLE_TO_PARSE_FROM_JSON: &'static str = "Unable to parse from Json";

pub const FAILED_TO_RETRIEVE_TODO: &'static str = "Unalble to retireve data";

pub const FAILED_TO_STORE_TODO: &'static str = "Unalble to store data";

pub const FAILED_TO_DELETE_TODO: &'static str = "Unalble to delete data";

/// The service the session talks to, and its three paths.
pub const SIMPLE_SERVER: &'static str = "http://127.0.0.1:3000";

pub const SIMPLE_SERVER_GET_TODO: &'static str = "/get_todo";

pub const SIMPLE_SERVER_DELETE_TODO: &'static str = "/delete_todo";

pub const SIMPLE_SERVER_STORE_TODO: &'static str = "/store_todo";

/// The one request a committed mutation issues: the path it posts to and
/// the serialized record it carries. An update writes the new value through
/// the store path — it must not remove the key.
pub fn manage_action_request(action_type: &ActionType, todo: &ToDo) -> (r: (
    &'static str,
    Vec<u8>,
))
    ensures
        r.1@ == crate::codec::todo_json(*todo),
        (match *action_type {
            ActionType::Add => r.0@ == SIMPLE_SERVER_STORE_TODO@,
            ActionType::Update => r.0@ == SIMPLE_SERVER_STORE_TODO@,
            ActionType::Delete => r.0@ == SIMPLE_SERVER_DELETE_TODO@,
        }),
{
    let body = crate::codec::encode_todo(todo);
    let path = match action_type {
        ActionType::Add => SIMPLE_SERVER_STORE_TODO,
        ActionType::Update => SIMPLE_SERVER_STORE_TODO,
        ActionType::Delete => SIMPLE_SERVER_DELETE_TODO,
    };
    (path, body)
}

/// An id no current record uses: one past the largest id in view. `None`
/// only when some record already holds the largest representable id.
pub fn fresh_id(todos: &Vec<ToDo>) -> (r: Option<usize>)
    ensures
        (r matches Some(id) ==> !crate::server::seq_has_id(todos@, id as nat)),
        r is None ==> crate::server::seq_has_id(todos@, usize::MAX as nat),
{
    let mut top: usize = 0;
    let mut k: usize = 0;
    while k < todos.len()
        invariant
            k <= todos@.len(),
            forall|m: int| 0 <= m < k ==> (#[trigger] todos@[m]).id < top,
        decreases todos@.len() - k,
    {
        if todos[k].id == usize::MAX {
            proof {
                assert(todos@[k as int].id as nat == usize::MAX as nat);
            }
            return None;
        }
        if todos[k].id >= top {
            top = todos[k].id + 1;
        }
        k = k + 1;
    }
    proof {
        if crate::server::seq_has_id(todos@, top as nat) {
            let w = choose|w: int|
                0 <= w < todos@.len() && (#[trigger] todos@[w]).id as nat == top as nat;
        }
    }
    Some(top)
}

} // verus!

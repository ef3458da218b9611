use todo_core::client::{
    fresh_id, manage_action_request, ActionType, FormState, Msg, Task, TaskError, ToDoState,
};
use todo_core::ToDo;

fn sample(id: usize, text: &str) -> ToDo {
    ToDo::new(text, "2024-01-01 12:00:00", id)
}

fn idle_state(todos: Vec<ToDo>) -> ToDoState {
    ToDoState { todos, loading: false, error: None }
}

#[test]
fn new_session_starts_loading() {
    let s = ToDoState::new();
    assert!(s.todos.is_empty());
    assert!(s.loading);
    assert!(s.error.is_none());
}

#[test]
fn done_add_appends() {
    let s = idle_state(vec![sample(0, "a")]);
    let s2 = s.reduce(Msg::Done(Task::Add(sample(1, "b"))));
    assert_eq!(s2.todos, vec![sample(0, "a"), sample(1, "b")]);
    assert!(!s2.loading);
    assert!(s2.error.is_none());
}

#[test]
fn done_delete_removes_every_record_of_the_id() {
    let s = idle_state(vec![sample(1, "a"), sample(2, "b"), sample(1, "c")]);
    let s2 = s.reduce(Msg::Done(Task::Delete(sample(1, "a"))));
    assert_eq!(s2.todos, vec![sample(2, "b")]);
}

#[test]
fn done_update_replaces_matching_record() {
    let s = idle_state(vec![sample(1, "a"), sample(2, "b")]);
    let s2 = s.reduce(Msg::Done(Task::Update(sample(2, "newer"))));
    assert_eq!(s2.todos, vec![sample(1, "a"), sample(2, "newer")]);
}

#[test]
fn done_update_absent_id_is_no_op() {
    let before = vec![sample(1, "a"), sample(2, "b")];
    let s = idle_state(before.clone());
    let s2 = s.reduce(Msg::Done(Task::Update(sample(7, "ghost"))));
    assert_eq!(s2.todos, before);
}

#[test]
fn done_loaded_replaces_wholesale() {
    let s = idle_state(vec![sample(1, "a")]);
    let fresh = vec![sample(5, "x"), sample(6, "y")];
    let s2 = s.reduce(Msg::Done(Task::Loaded(fresh.clone())));
    assert_eq!(s2.todos, fresh);
}

#[test]
fn ongoing_keeps_records_and_clears_error() {
    let s = ToDoState {
        todos: vec![sample(1, "a")],
        loading: false,
        error: Some("old".to_string()),
    };
    let s2 = s.reduce(Msg::OnGoing(Task::Loaded(Vec::new())));
    assert_eq!(s2.todos, vec![sample(1, "a")]);
    assert!(s2.loading);
    assert!(s2.error.is_none());
}

#[test]
fn begin_empty_text_issues_no_request() {
    let before = vec![sample(1, "a")];
    let s = idle_state(before.clone());
    let (s2, request) = s.begin(Task::Add(sample(2, "")));
    assert!(request.is_none());
    assert_eq!(s2.todos, before);
    assert!(!s2.loading);
    assert_eq!(s2.error.as_deref(), Some("ToDo cannot be empty"));
}

#[test]
fn begin_while_loading_is_rejected() {
    let s = ToDoState { todos: vec![sample(1, "a")], loading: true, error: None };
    let (s2, request) = s.begin(Task::Add(sample(2, "b")));
    assert!(request.is_none());
    assert!(s2.loading);
    assert_eq!(s2.todos, vec![sample(1, "a")]);
}

#[test]
fn begin_valid_mutation_enters_loading() {
    let s = ToDoState {
        todos: vec![sample(1, "a")],
        loading: false,
        error: Some("stale".to_string()),
    };
    let (s2, request) = s.begin(Task::Delete(sample(1, "a")));
    assert!(matches!(request, Some(Task::Delete(_))));
    assert!(s2.loading);
    assert!(s2.error.is_none());
    assert_eq!(s2.todos, vec![sample(1, "a")]);
}

#[test]
fn failed_mutation_keeps_records_and_surfaces_error() {
    let before = vec![sample(1, "a"), sample(2, "b")];
    let s = ToDoState { todos: before.clone(), loading: true, error: None };
    let s2 = s.complete(Task::Delete(sample(1, "a")), Err(TaskError::DeleteError));
    assert_eq!(s2.todos, before);
    assert!(!s2.loading);
    let message = s2.error.unwrap();
    assert!(!message.is_empty());
    assert_eq!(message, "Failed to perform Delete Operation");
}

#[test]
fn confirmed_mutation_is_applied() {
    let s = ToDoState { todos: vec![sample(1, "a")], loading: true, error: None };
    let s2 = s.complete(Task::Add(sample(2, "b")), Ok(()));
    assert_eq!(s2.todos, vec![sample(1, "a"), sample(2, "b")]);
    assert!(!s2.loading);
    assert!(s2.error.is_none());
}

#[test]
fn task_error_messages() {
    assert_eq!(
        TaskError::AddError.return_task_error(),
        "Failed to perform Add Operation"
    );
    assert_eq!(
        TaskError::DeleteError.return_task_error(),
        "Failed to perform Delete Operation"
    );
    assert_eq!(
        TaskError::UpdateError.return_task_error(),
        "Failed to perform Update Operation"
    );
    assert_eq!(TaskError::LoadError.return_task_error(), "Failed to retireve ToDos");
    assert_eq!(
        TaskError::GenericError("custom".to_string()).return_task_error(),
        "custom"
    );
}

#[test]
fn fresh_id_is_unused() {
    assert_eq!(fresh_id(&Vec::new()), Some(0));
    assert_eq!(fresh_id(&vec![sample(0, "a"), sample(1, "b"), sample(2, "c")]), Some(3));
    let with_gap = vec![sample(5, "a")];
    let id = fresh_id(&with_gap).unwrap();
    assert!(with_gap.iter().all(|t| t.id != id));
    assert_eq!(fresh_id(&vec![sample(usize::MAX, "edge")]), None);
}

#[test]
fn update_request_goes_to_store_path() {
    let t = sample(5, "new");
    let (path, body) = manage_action_request(&ActionType::Update, &t);
    assert_eq!(path, "/store_todo");
    assert_eq!(
        body,
        b"{\"id\":5,\"todo_info\":\"new\",\"todo_date\":\"2024-01-01 12:00:00\"}".to_vec()
    );
}

#[test]
fn add_and_delete_request_paths() {
    let t = sample(5, "x");
    let (add_path, _) = manage_action_request(&ActionType::Add, &t);
    let (del_path, del_body) = manage_action_request(&ActionType::Delete, &t);
    assert_eq!(add_path, "/store_todo");
    assert_eq!(del_path, "/delete_todo");
    assert!(!del_body.is_empty());
}

#[test]
fn form_state_transitions() {
    let mut f = FormState::new();
    assert!(f == FormState::Hidden);
    f.show_add_form();
    assert!(f == FormState::Visible(ActionType::Add));
}

#[test]
fn todo_new_and_clone() {
    let t = ToDo::new("text", "date", 7);
    assert_eq!(t.id, 7);
    assert_eq!(t.todo_info, "text");
    assert_eq!(t.todo_date, "date");
    assert_eq!(t.clone(), t);
}

#[test]
fn fetch_response_replaces_records() {
    let list = vec![sample(3, "x"), sample(9, "y")];
    let body = todo_core::codec::encode_todo_list(&list);
    let s = ToDoState::new();
    let s2 = s.complete_fetch(&body);
    assert_eq!(s2.todos, list);
    assert!(!s2.loading);
    assert!(s2.error.is_none());
}

#[test]
fn undecodable_fetch_response_keeps_records() {
    let before = vec![sample(1, "kept")];
    let s = ToDoState { todos: before.clone(), loading: true, error: None };
    let s2 = s.complete_fetch(&b"not a json array".to_vec());
    assert_eq!(s2.todos, before);
    assert!(!s2.loading);
    assert_eq!(s2.error.as_deref(), Some("Unable to parse from Json"));
}

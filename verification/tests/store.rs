use regia::note::{Note, Notes};
use regia::task::{classify, RepeatType, Task, TaskType, Tasks};

#[test]
fn add_and_remove_task() {
    let task = Task::new(String::from("test task"), 0);
    let mut tasks = Tasks::default();
    tasks.add(task.clone());
    assert_eq!(&vec![task.clone()], tasks.get_tasks());
    tasks.remove(task.id);
    assert_eq!(&Vec::<Task>::new(), tasks.get_tasks());
}

#[test]
fn new_task_fields() {
    let task = Task::new(String::from("plain"), 7);
    assert_eq!(task.content, "plain");
    assert_eq!(task.priority, 7);
    assert!(task.due.is_none());
    assert!(task.task_type.is_none());
    assert!(task.repeat.is_none());
    assert!(task.depends.is_empty());
}

#[test]
fn new_date_task_fields() {
    let task = Task::new_date(
        String::from("dated"),
        1,
        Some(86_400_000_000),
        TaskType::Repeated,
        Some(RepeatType::Weekly),
    );
    assert_eq!(task.content, "dated");
    assert_eq!(task.priority, 1);
    assert_eq!(task.due, Some(86_400_000_000));
    assert!(matches!(task.task_type, Some(TaskType::Repeated)));
    assert!(matches!(task.repeat, Some(RepeatType::Weekly)));
}

#[test]
fn classify_picks_the_tag() {
    assert!(classify(None, None).is_none());
    assert!(matches!(classify(Some(5), None), Some(TaskType::Deadline)));
    assert!(matches!(
        classify(None, Some(RepeatType::Daily)),
        Some(TaskType::Repeated)
    ));
    assert!(matches!(
        classify(Some(5), Some(RepeatType::Monthly)),
        Some(TaskType::Repeated)
    ));
}

#[test]
fn get_all_sorted_by_identity() {
    let mut tasks = Tasks::default();
    for i in 0..20 {
        tasks.add(Task::new(format!("task {}", i), i));
    }
    let all = tasks.get_tasks();
    assert_eq!(all.len(), 20);
    for w in all.windows(2) {
        assert!(w[0].id < w[1].id);
    }
}

#[test]
fn lookup_after_add_and_remove() {
    let mut tasks = Tasks::default();
    let task = Task::new(String::from("find me"), 3);
    let other = Task::new(String::from("someone else"), 4);
    tasks.add(task.clone());
    tasks.add(other.clone());
    let found = tasks.get_task(task.id).expect("added task must be found");
    assert_eq!(found.id, task.id);
    assert_eq!(found.content, "find me");
    tasks.remove(task.id);
    assert!(tasks.get_task(task.id).is_none());
    assert!(tasks.get_task(other.id).is_some());
}

#[test]
fn duplicate_identity_replaces() {
    let mut tasks = Tasks::default();
    let task = Task::new(String::from("first wording"), 0);
    let mut rewrite = task.clone();
    rewrite.content = String::from("second wording");
    tasks.add(task);
    tasks.add(rewrite);
    let all = tasks.get_tasks();
    assert_eq!(all.len(), 1);
    assert_eq!(all[0].content, "second wording");
}

#[test]
fn remove_absent_is_a_no_op() {
    let mut tasks = Tasks::default();
    let kept = Task::new(String::from("kept"), 0);
    let never_added = Task::new(String::from("never added"), 0);
    tasks.add(kept.clone());
    let before = tasks.get_tasks().clone();
    tasks.remove(never_added.id);
    assert_eq!(&before, tasks.get_tasks());
    assert_eq!(tasks.get_tasks().len(), 1);
}

#[test]
fn add_dependency_is_idempotent() {
    let mut task = Task::new(String::from("parent"), 0);
    let child = Task::new(String::from("child"), 0);
    task.add_dependency(child.id);
    let once = task.depends.clone();
    task.add_dependency(child.id);
    assert_eq!(once, task.depends);
    assert_eq!(task.depends.len(), 1);
    assert_eq!(task.depends[0], child.id);
}

#[test]
fn dependencies_stay_sorted() {
    let mut task = Task::new(String::from("parent"), 0);
    task.add_dependency(500);
    task.add_dependency(2);
    task.add_dependency(77);
    task.add_dependency(2);
    assert_eq!(task.depends, vec![2, 77, 500]);
}

#[test]
fn task_fmt_picks_colour_by_priority() {
    let map = [(1u32, "red"), (3u32, "yellow")];
    let urgent = Task::new(String::from("urgent"), 0);
    let middling = Task::new(String::from("middling"), 2);
    let relaxed = Task::new(String::from("relaxed"), 5);
    assert_eq!(urgent.fmt(&map), (String::from("* urgent"), "red"));
    assert_eq!(middling.fmt(&map), (String::from("* middling"), "yellow"));
    assert_eq!(relaxed.fmt(&map), (String::from("* relaxed"), "white"));
    assert_eq!(relaxed.fmt(&[]), (String::from("* relaxed"), "white"));
}

#[test]
fn note_store_add_get_remove() {
    let mut notes = Notes::default();
    let note = Note::new("remember the milk");
    let other = Note::new("and the bread");
    notes.add(note.clone());
    notes.add(other.clone());
    assert_eq!(notes.get_notes().len(), 2);
    let found = notes.get_note(note.id).expect("added note must be found");
    assert_eq!(found, &note);
    notes.remove(note.id);
    assert!(notes.get_note(note.id).is_none());
    assert_eq!(notes.get_notes().len(), 1);
    let mut all_ids: Vec<u128> = notes.get_notes().iter().map(|n| n.id).collect();
    all_ids.dedup();
    assert_eq!(all_ids, vec![other.id]);
}

#[test]
fn note_fmt_prefixes_a_star() {
    let note = Note::new("remember");
    assert_eq!(note.fmt(), "* remember");
}

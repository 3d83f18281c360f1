use regia::db::Database;
use regia::errors::DbError;
use regia::note::Note;
use regia::task::{RepeatType, Task, TaskType};

#[test]
fn to_from_disk() {
    let mut task = Task::new(String::from("test task"), 0);
    let subtask = Task::new(String::from("subtask"), 0);

    task.add_dependency(subtask.id);

    let mut db = Database::default();
    {
        let tasks = &mut db.tasks;
        tasks.add(task.clone());
        tasks.add(subtask.clone());
    }

    let buf = db.encode();

    let from_disk_db = Database::decode(&buf).unwrap();
    assert_eq!(db.tasks, from_disk_db.tasks);

    for disk_task in from_disk_db.tasks.get_tasks().iter() {
        match disk_task.id {
            id if id == task.id => {
                assert_eq!(&task, disk_task);
            }
            id if id == subtask.id => assert_eq!(&subtask, disk_task),
            _ => {
                unreachable!();
            }
        }
    }
}

#[test]
fn round_trip_keeps_every_field() {
    let mut db = Database::default();
    let mut task = Task::new_date(
        String::from("héllo ✓ 日本語"),
        9,
        Some(-123_456_789),
        TaskType::Repeated,
        Some(RepeatType::Monthly),
    );
    task.add_dependency(42);
    task.add_dependency(7);
    db.tasks.add(task.clone());
    db.notes.add(Note::new("wide text: ñ € 🦀"));
    db.notes.add(Note::new(""));

    let reloaded = Database::decode(&db.encode()).unwrap();
    assert_eq!(db, reloaded);

    let back = reloaded.tasks.get_task(task.id).unwrap();
    assert_eq!(back.content, "héllo ✓ 日本語");
    assert_eq!(back.priority, 9);
    assert_eq!(back.created, task.created);
    assert_eq!(back.due, Some(-123_456_789));
    assert!(matches!(back.task_type, Some(TaskType::Repeated)));
    assert!(matches!(back.repeat, Some(RepeatType::Monthly)));
    assert_eq!(back.depends, vec![7, 42]);
}

#[test]
fn round_trip_of_an_empty_database() {
    let db = Database::default();
    let reloaded = Database::decode(&db.encode()).unwrap();
    assert_eq!(db, reloaded);
    assert!(reloaded.tasks.get_tasks().is_empty());
    assert!(reloaded.notes.get_notes().is_empty());
}

#[test]
fn report_and_sources_survive_a_reload() {
    let mut report = Task::new(String::from("write report"), 2);
    let sources = Task::new(String::from("cite sources"), 1);
    report.add_dependency(sources.id);

    let mut db = Database::default();
    db.tasks.add(report.clone());
    db.tasks.add(sources.clone());

    let reloaded = Database::decode(&db.encode()).unwrap();

    let back = reloaded.tasks.get_task(report.id).unwrap();
    assert_eq!(back.depends, vec![sources.id]);

    let all = reloaded.tasks.get_tasks();
    assert_eq!(all.len(), 2);
    if sources.id < report.id {
        assert_eq!(all[0].id, sources.id);
        assert_eq!(all[1].id, report.id);
    } else {
        assert_eq!(all[0].id, report.id);
        assert_eq!(all[1].id, sources.id);
    }
}

#[test]
fn empty_bytes_are_a_decode_fault() {
    assert_eq!(Database::decode(&[]), Err(DbError::DecodeFault));
}

#[test]
fn wrong_version_is_a_decode_fault() {
    let mut buf = Database::default().encode();
    buf[0] = buf[0].wrapping_add(1);
    assert_eq!(Database::decode(&buf), Err(DbError::DecodeFault));
}

#[test]
fn truncated_bytes_are_a_decode_fault() {
    let mut db = Database::default();
    db.tasks.add(Task::new(String::from("will be cut short"), 0));
    let buf = db.encode();
    assert_eq!(
        Database::decode(&buf[..buf.len() - 1]),
        Err(DbError::DecodeFault)
    );
}

#[test]
fn trailing_bytes_are_a_decode_fault() {
    let mut buf = Database::default().encode();
    buf.push(0);
    assert_eq!(Database::decode(&buf), Err(DbError::DecodeFault));
}

#[test]
fn garbage_is_a_decode_fault() {
    let buf: Vec<u8> = (0u8..64).map(|b| b.wrapping_mul(37)).collect();
    assert_eq!(Database::decode(&buf), Err(DbError::DecodeFault));
}

#[test]
fn missing_file_stays_not_found() {
    assert_eq!(
        Database::from_read(Err(DbError::NotFound)),
        Err(DbError::NotFound)
    );
    assert_eq!(
        Database::from_read(Err(DbError::IoFault)),
        Err(DbError::IoFault)
    );
}

#[test]
fn read_bytes_are_decoded() {
    let db = Database::default();
    let reloaded = Database::from_read(Ok(db.encode())).unwrap();
    assert_eq!(db, reloaded);
    assert_eq!(
        Database::from_read(Ok(vec![9, 9, 9])),
        Err(DbError::DecodeFault)
    );
}

#[test]
fn fault_messages() {
    assert_eq!(DbError::NotFound.message(), "not found");
    assert_eq!(DbError::IoFault.message(), "i/o fault");
    assert_eq!(DbError::DecodeFault.message(), "decode fault");
    assert_eq!(DbError::EncodeFault.message(), "encode fault");
    assert_eq!(DbError::BadReference.message(), "bad identity reference");
}

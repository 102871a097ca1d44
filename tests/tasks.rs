
use notnow::db::Db;
use notnow::id::Ids;
use notnow::ops::Ops;
use notnow::ser::tags::Id as SerTemplateId;
use notnow::ser::tags::Template as SerTemplate;
use notnow::ser::tags::Templates as SerTemplates;
use notnow::tags::Templates;
use notnow::tags::COMPLETE_TAG;
use notnow::tasks::Target;
use notnow::tasks::Task;
use notnow::tasks::TaskOp;
use notnow::tasks::Tasks;
use notnow::test::make_tasks;

/// Check that we can query and set/unset tags on a task.
#[test]
fn task_tag_query_and_adjustment() {
    let templates = vec![SerTemplate {
        id: SerTemplateId::new(42),
        name: COMPLETE_TAG.to_string(),
    }];
    let templates = Templates::with_serde(SerTemplates(templates)).unwrap();
    let complete = templates.instantiate_from_name(COMPLETE_TAG);

    let mut ids = Ids::new();
    let mut task = Task::new(&mut ids, "test task");
    assert!(!task.has_tag(&complete));

    assert!(task.set_tag(complete.clone()));
    assert!(task.has_tag(&complete));
    assert!(!task.set_tag(complete.clone()));
    assert!(task.has_tag(&complete));

    assert!(task.unset_tag(&complete));
    assert!(!task.has_tag(&complete));
    assert!(!task.unset_tag(&complete));
    assert!(!task.has_tag(&complete));
}

/// Check that the `TaskOp::Add` variant works as expected on an empty
/// task vector.
#[test]
fn exec_undo_task_add_empty() {
    let mut ids = Ids::new();
    let mut tasks = Db::from_iter(vec![]);
    let mut ops = Ops::new(3);

    let task1 = Task::new(&mut ids, "task1");
    let op = TaskOp::add(task1, None);
    ops.exec(op, &mut tasks);
    assert_eq!(tasks.iter().len(), 1);
    assert_eq!(tasks.get(0).unwrap().summary(), "task1");

    ops.undo(&mut tasks);
    assert_eq!(tasks.iter().len(), 0);

    ops.redo(&mut tasks);
    assert_eq!(tasks.iter().len(), 1);
    assert_eq!(tasks.get(0).unwrap().summary(), "task1");
}

/// Check that the `TaskOp::Add` variant works as expected on a
/// non-empty task vector.
#[test]
fn exec_undo_task_add_non_empty() {
    let mut ids = Ids::new();
    let mut tasks = Db::from_iter(vec![Task::new(&mut ids, "task1")]);
    let mut ops = Ops::new(3);
    let task2 = Task::new(&mut ids, "task2");
    let op = TaskOp::add(task2, None);
    ops.exec(op, &mut tasks);
    assert_eq!(tasks.iter().len(), 2);
    assert_eq!(tasks.get(0).unwrap().summary(), "task1");
    assert_eq!(tasks.get(1).unwrap().summary(), "task2");

    let task3 = Task::new(&mut ids, "task3");
    let after = tasks.get(0).unwrap().id();
    let op = TaskOp::add(task3, Some(after));
    ops.exec(op, &mut tasks);
    assert_eq!(tasks.iter().len(), 3);
    assert_eq!(tasks.get(0).unwrap().summary(), "task1");
    assert_eq!(tasks.get(1).unwrap().summary(), "task3");
    assert_eq!(tasks.get(2).unwrap().summary(), "task2");

    ops.undo(&mut tasks);
    assert_eq!(tasks.iter().len(), 2);
    assert_eq!(tasks.get(0).unwrap().summary(), "task1");
    assert_eq!(tasks.get(1).unwrap().summary(), "task2");

    ops.undo(&mut tasks);
    assert_eq!(tasks.iter().len(), 1);
    assert_eq!(tasks.get(0).unwrap().summary(), "task1");
}

/// Check that the `TaskOp::Remove` variant works as expected on a
/// task vector with only a single task.
#[test]
fn exec_undo_task_remove_single() {
    let mut ids = Ids::new();
    let mut tasks = Db::from_iter(vec![Task::new(&mut ids, "task1")]);
    let mut ops = Ops::new(3);

    let task = tasks.get(0).unwrap().id();
    let op = TaskOp::remove(task);
    ops.exec(op, &mut tasks);
    assert_eq!(tasks.iter().len(), 0);

    ops.undo(&mut tasks);
    assert_eq!(tasks.iter().len(), 1);
    assert_eq!(tasks.get(0).unwrap().summary(), "task1");

    ops.redo(&mut tasks);
    assert_eq!(tasks.iter().len(), 0);
}

/// Check that the `TaskOp::Remove` variant works as expected on a
/// task vector with multiple tasks.
#[test]
fn exec_undo_task_remove_multi() {
    let mut ids = Ids::new();
    let iter = vec![
        Task::new(&mut ids, "task1"),
        Task::new(&mut ids, "task2"),
        Task::new(&mut ids, "task3"),
    ];
    let mut tasks = Db::from_iter(iter);
    let mut ops = Ops::new(3);

    let task = tasks.get(1).unwrap().id();
    let op = TaskOp::remove(task);
    ops.exec(op, &mut tasks);
    assert_eq!(tasks.iter().len(), 2);
    assert_eq!(tasks.get(0).unwrap().summary(), "task1");
    assert_eq!(tasks.get(1).unwrap().summary(), "task3");

    ops.undo(&mut tasks);
    assert_eq!(tasks.iter().len(), 3);
    assert_eq!(tasks.get(0).unwrap().summary(), "task1");
    assert_eq!(tasks.get(1).unwrap().summary(), "task2");
    assert_eq!(tasks.get(2).unwrap().summary(), "task3");

    ops.redo(&mut tasks);
    assert_eq!(tasks.iter().len(), 2);
    assert_eq!(tasks.get(0).unwrap().summary(), "task1");
    assert_eq!(tasks.get(1).unwrap().summary(), "task3");
}

/// Check that the `TaskOp::Update` variant works as expected.
#[test]
fn exec_undo_task_update() {
    let mut ids = Ids::new();
    let iter = vec![Task::new(&mut ids, "task1"), Task::new(&mut ids, "task2")];
    let mut tasks = Db::from_iter(iter);
    let mut ops = Ops::new(3);

    let task = tasks.get(0).unwrap();
    // Make a deep copy of the task.
    let mut updated = task.snapshot();
    updated.set_summary("foo!".to_string());
    let op = TaskOp::update(task.id(), updated);
    ops.exec(op, &mut tasks);
    assert_eq!(tasks.iter().len(), 2);
    assert_eq!(tasks.get(0).unwrap().summary(), "foo!");
    assert_eq!(tasks.get(1).unwrap().summary(), "task2");

    ops.undo(&mut tasks);
    assert_eq!(tasks.iter().len(), 2);
    assert_eq!(tasks.get(0).unwrap().summary(), "task1");
    assert_eq!(tasks.get(1).unwrap().summary(), "task2");

    ops.redo(&mut tasks);
    assert_eq!(tasks.iter().len(), 2);
    assert_eq!(tasks.get(0).unwrap().summary(), "foo!");
    assert_eq!(tasks.get(1).unwrap().summary(), "task2");
}

/// Check that the `TaskOp::Move` variant works as expected.
#[test]
fn exec_undo_task_move() {
    let mut ids = Ids::new();
    let iter = vec![Task::new(&mut ids, "task1"), Task::new(&mut ids, "task2")];
    let mut tasks = Db::from_iter(iter);
    let mut ops = Ops::new(3);

    let before = tasks.get(0).unwrap().id();
    let op = TaskOp::move_(1, Target::Before(before));
    ops.exec(op, &mut tasks);
    assert_eq!(tasks.iter().len(), 2);
    assert_eq!(tasks.get(0).unwrap().summary(), "task2");
    assert_eq!(tasks.get(1).unwrap().summary(), "task1");

    ops.undo(&mut tasks);
    assert_eq!(tasks.iter().len(), 2);
    assert_eq!(tasks.get(0).unwrap().summary(), "task1");
    assert_eq!(tasks.get(1).unwrap().summary(), "task2");

    let after = tasks.get(0).unwrap().id();
    let op = TaskOp::move_(1, Target::After(after));
    ops.exec(op, &mut tasks);
    assert_eq!(tasks.iter().len(), 2);
    assert_eq!(tasks.get(0).unwrap().summary(), "task1");
    assert_eq!(tasks.get(1).unwrap().summary(), "task2");

    ops.undo(&mut tasks);
    assert_eq!(tasks.iter().len(), 2);
    assert_eq!(tasks.get(0).unwrap().summary(), "task1");
    assert_eq!(tasks.get(1).unwrap().summary(), "task2");
}

#[test]
fn add_task() {
    let mut tasks = Tasks::with_serde_tasks(make_tasks(3)).unwrap();
    let tags = Default::default();
    tasks.add("4".to_string(), tags, None);

    let tasks = tasks.to_serde().into_task_vec();
    assert_eq!(tasks, make_tasks(4));
}

/// Check that adding a task after another works correctly.
#[test]
fn add_task_after() {
    let tasks = make_tasks(3);
    let mut tasks = Tasks::with_serde_tasks(tasks).unwrap();
    let after = tasks.iter()[0].id();
    let tags = Default::default();
    tasks.add("4".to_string(), tags, Some(after));

    let tasks = tasks.to_serde().into_task_vec();
    let mut expected = make_tasks(4);
    let task = expected.remove(3);
    expected.insert(1, task);

    assert_eq!(tasks, expected);
}

#[test]
fn remove_task() {
    let mut tasks = Tasks::with_serde_tasks(make_tasks(3)).unwrap();
    let task = tasks.iter()[1].id();
    tasks.remove(task);

    let tasks = tasks.to_serde().into_task_vec();
    let mut expected = make_tasks(3);
    expected.remove(1);

    assert_eq!(tasks, expected);
}

#[test]
fn update_task() {
    let mut tasks = Tasks::with_serde_tasks(make_tasks(3)).unwrap();
    let task = &tasks.iter()[1];
    // Make a deep copy of the task.
    let mut updated = task.snapshot();
    updated.set_summary("amended".to_string());
    let task = task.id();
    tasks.update(task, updated);

    let tasks = tasks.to_serde().into_task_vec();
    let mut expected = make_tasks(3);
    expected[1].summary = "amended".to_string();

    assert_eq!(tasks, expected);
}

/// Check that moving a task before the first one works as expected.
#[test]
fn move_before_for_first() {
    let mut tasks = Tasks::with_serde_tasks(make_tasks(3)).unwrap();
    let task1 = tasks.iter()[0].id();
    let task2 = tasks.iter()[1].id();
    tasks.move_before(task1, task2);

    let tasks = tasks.to_serde().into_task_vec();
    let expected = make_tasks(3);
    assert_eq!(tasks, expected);
}

/// Check that moving a task after the last one works as expected.
#[test]
fn move_after_for_last() {
    let mut tasks = Tasks::with_serde_tasks(make_tasks(3)).unwrap();
    let task1 = tasks.iter()[2].id();
    let task2 = tasks.iter()[1].id();
    tasks.move_after(task1, task2);

    let expected = make_tasks(3);
    let tasks = tasks.to_serde().into_task_vec();
    assert_eq!(tasks, expected);
}

/// Check that moving a task before another works as expected.
#[test]
fn move_before() {
    let mut tasks = Tasks::with_serde_tasks(make_tasks(4)).unwrap();
    let task1 = tasks.iter()[2].id();
    let task2 = tasks.iter()[1].id();
    tasks.move_before(task1, task2);

    let tasks = tasks.to_serde().into_task_vec();
    let mut expected = make_tasks(4);
    expected.swap(2, 1);

    assert_eq!(tasks, expected);
}

/// Check that moving a task after another works as expected.
#[test]
fn move_after() {
    let mut tasks = Tasks::with_serde_tasks(make_tasks(4)).unwrap();
    let task1 = tasks.iter()[1].id();
    let task2 = tasks.iter()[2].id();
    tasks.move_after(task1, task2);

    let tasks = tasks.to_serde().into_task_vec();
    let mut expected = make_tasks(4);
    expected.swap(1, 2);
    assert_eq!(tasks, expected);
}


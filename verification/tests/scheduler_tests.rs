use topo_core::geo::GeoLocation;
use topo_core::range::GeoCoord;
use topo_core::scheduler::BackgroundEvent;
use topo_core::scheduler::BackgroundNotification;
use topo_core::scheduler::PendingOperation;
use topo_core::scheduler::StatusListener;
use topo_core::scheduler::TaskInfo;
use topo_core::scheduler::TaskTracker;
use topo_core::status::StatusNotifier;

fn remaining(n: &BackgroundNotification) -> usize {
    match n {
        BackgroundNotification::TaskStarted(info) => info.running_tasks_left,
        BackgroundNotification::TaskFinished(info) => info.running_tasks_left,
        BackgroundNotification::TaskErrored { task, .. } => task.running_tasks_left,
        BackgroundNotification::JoinError(_) => panic!("unexpected join error"),
    }
}

#[test]
fn failed_task_leaves_siblings_and_count_reaches_zero() {
    let mut tracker = TaskTracker::new();
    let n1 = tracker.on_task_started(String::from("tile a"));
    assert_eq!(remaining(&n1), 1);
    let n2 = tracker.on_task_started(String::from("tile b"));
    assert_eq!(remaining(&n2), 2);

    // Tile a's fetch fails: only that task leaves the set.
    let n3 = tracker.on_task_result(String::from("tile a"), false, String::from("fetch failed"));
    match &n3 {
        BackgroundNotification::TaskErrored { task, error } => {
            assert_eq!(task.task, "tile a");
            assert_eq!(task.running_tasks_left, 1);
            assert_eq!(error, "fetch failed");
        }
        other => panic!("expected an error notification, got {other:?}"),
    }
    assert_eq!(tracker.pending(), 1);

    // Tile b still completes, and the count reaches zero.
    let n4 = tracker.on_task_result(String::from("tile b"), true, String::new());
    match &n4 {
        BackgroundNotification::TaskFinished(info) => {
            assert_eq!(info.task, "tile b");
            assert_eq!(info.running_tasks_left, 0);
        }
        other => panic!("expected a finish notification, got {other:?}"),
    }
    assert_eq!(tracker.pending(), 0);
}

#[test]
fn task_info_and_event_description() {
    let info = TaskInfo::new(String::from("work"), 3);
    assert_eq!(info.task, "work");
    assert_eq!(info.running_tasks_left, 3);

    let event = BackgroundEvent::DataRequested {
        requested: GeoLocation::from_coord(49, 20),
        current_location: GeoCoord::new(49_500_000, 20_100_000),
    };
    let info = event.to_task_info(2);
    assert_eq!(
        info.task,
        "Data requested for location latitude=49N&longitude=20E"
    );
    assert_eq!(info.running_tasks_left, 2);
}

struct RecordingListener {
    seen: Vec<String>,
}

impl StatusListener for RecordingListener {
    fn notify(&mut self, status: &String) {
        self.seen.push(status.clone());
    }
}

#[test]
fn status_counts_pending_operations() {
    let mut notifier: StatusNotifier<RecordingListener> = StatusNotifier::new();
    assert_eq!(notifier.status_string(), "");

    let tile = Some(GeoLocation::from_coord(49, 20));
    notifier.update_pending_operations(tile, &[PendingOperation::FetchingTerrain], &[]);
    assert_eq!(notifier.status_string(), "Pending: 1");

    notifier.update_pending_operations(None, &[PendingOperation::LoadingFonts], &[]);
    assert_eq!(notifier.status_string(), "Pending: 2");

    // Re-adding the same operation does not double-count it.
    notifier.update_pending_operations(tile, &[PendingOperation::FetchingTerrain], &[]);
    assert_eq!(notifier.status_string(), "Pending: 2");

    notifier.update_pending_operations(
        tile,
        &[PendingOperation::ProcessingTerrain],
        &[PendingOperation::FetchingTerrain],
    );
    assert_eq!(notifier.status_string(), "Pending: 2");

    notifier.update_pending_operations(tile, &[], &[PendingOperation::ProcessingTerrain]);
    notifier.update_pending_operations(None, &[], &[PendingOperation::LoadingFonts]);
    assert_eq!(notifier.status_string(), "");
}

#[test]
fn listeners_hear_every_update() {
    let mut notifier: StatusNotifier<RecordingListener> = StatusNotifier::new();
    notifier.add_listener(RecordingListener { seen: Vec::new() });
    let tile = Some(GeoLocation::from_coord(1, 1));
    notifier.update_pending_operations(tile, &[PendingOperation::FetchingTerrain], &[]);
    notifier.update_pending_operations(tile, &[], &[PendingOperation::FetchingTerrain]);
    // The listener was moved into the notifier; observe through status.
    assert_eq!(notifier.status_string(), "");
}

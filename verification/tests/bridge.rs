//! The task bridge: FIFO scheduling per drain point, exactly-once delivery.

use remote_devtools::sync::ExecutionChannel;
use remote_devtools::sync::TaskBridge;

fn run_log(mut log: Vec<u64>, task: u64) -> (Vec<u64>, u64) {
    log.push(task);
    (log, task)
}

#[test]
fn schedule_then_drain_resolves_in_order() {
    // Schedule task A returning 1, then task B returning 2, both on the
    // frame-end point, before any drain; draining once resolves A to 1
    // before B resolves to 2.
    let mut bridge: TaskBridge<u64, u64> = TaskBridge::new();
    let ticket_a = bridge.schedule_on(ExecutionChannel::FrameEnd, 1);
    let ticket_b = bridge.schedule_on(ExecutionChannel::FrameEnd, 2);
    assert_eq!(bridge.try_take(ticket_a), None);
    assert_eq!(bridge.try_take(ticket_b), None);

    let (log, _) = bridge.drain_with(ExecutionChannel::FrameEnd, Vec::new(), run_log);
    assert_eq!(log, vec![1, 2]);
    assert_eq!(bridge.try_take(ticket_a), Some(1));
    assert_eq!(bridge.try_take(ticket_b), Some(2));
}

#[test]
fn each_task_observes_state_left_by_predecessor() {
    let mut bridge: TaskBridge<u64, u64> = TaskBridge::new();
    let t1 = bridge.schedule_on(ExecutionChannel::FrameStart, 5);
    let t2 = bridge.schedule_on(ExecutionChannel::FrameStart, 7);
    let t3 = bridge.schedule_on(ExecutionChannel::FrameStart, 11);
    // Each task adds its payload to the running world and returns the world
    // it observed, so the results expose the chain of intermediate states.
    let (world, _) = bridge.drain_with(ExecutionChannel::FrameStart, 100u64, |w: u64, t: u64| {
        (w + t, w)
    });
    assert_eq!(world, 123);
    assert_eq!(bridge.try_take(t1), Some(100));
    assert_eq!(bridge.try_take(t2), Some(105));
    assert_eq!(bridge.try_take(t3), Some(112));
}

#[test]
fn result_consumed_exactly_once() {
    let mut bridge: TaskBridge<u64, u64> = TaskBridge::new();
    let ticket = bridge.schedule_on(ExecutionChannel::FrameEnd, 42);
    let (_, _) = bridge.drain_with(ExecutionChannel::FrameEnd, Vec::new(), run_log);
    assert_eq!(bridge.try_take(ticket), Some(42));
    assert_eq!(bridge.try_take(ticket), None);
    assert_eq!(bridge.try_take(ticket), None);
}

#[test]
fn tasks_never_cross_channels() {
    let mut bridge: TaskBridge<u64, u64> = TaskBridge::new();
    let on_start = bridge.schedule_on(ExecutionChannel::FrameStart, 1);
    let on_render = bridge.schedule_on(ExecutionChannel::RenderApp, 2);
    let (_, _) = bridge.drain_with(ExecutionChannel::FrameEnd, Vec::new(), run_log);
    // Draining frame-end ran nothing: both tasks still wait on their own
    // channels.
    assert_eq!(bridge.try_take(on_start), None);
    assert_eq!(bridge.try_take(on_render), None);
    let taken = bridge.take_next_task(ExecutionChannel::FrameStart);
    assert_eq!(taken, Some((on_start, 1)));
    let taken = bridge.take_next_task(ExecutionChannel::RenderApp);
    assert_eq!(taken, Some((on_render, 2)));
}

#[test]
fn single_shot_take_runs_one_task_per_visit() {
    let mut bridge: TaskBridge<u64, u64> = TaskBridge::new();
    let t1 = bridge.schedule_on(ExecutionChannel::RenderApp, 10);
    let t2 = bridge.schedule_on(ExecutionChannel::RenderApp, 20);
    // The owner takes one task, runs it, and delivers its result.
    let (ticket, task) = bridge.take_next_task(ExecutionChannel::RenderApp).unwrap();
    assert_eq!((ticket, task), (t1, 10));
    bridge.complete(ticket, task * 2);
    assert_eq!(bridge.try_take(t1), Some(20));
    assert_eq!(bridge.try_take(t2), None);
    let (ticket, task) = bridge.take_next_task(ExecutionChannel::RenderApp).unwrap();
    assert_eq!((ticket, task), (t2, 20));
    bridge.complete(ticket, task * 2);
    assert_eq!(bridge.try_take(t2), Some(40));
    assert_eq!(bridge.take_next_task(ExecutionChannel::RenderApp), None);
}

#[test]
fn drain_on_empty_channel_is_a_no_op() {
    let mut bridge: TaskBridge<u64, u64> = TaskBridge::new();
    let (world, _) = bridge.drain_with(ExecutionChannel::FrameStart, 9u64, |w: u64, t: u64| (w, t));
    assert_eq!(world, 9);
}

#[test]
fn run_one_with_executes_at_most_one_task() {
    let mut bridge: TaskBridge<u64, u64> = TaskBridge::new();
    let t1 = bridge.schedule_on(ExecutionChannel::RenderApp, 3);
    let t2 = bridge.schedule_on(ExecutionChannel::RenderApp, 4);
    let world = bridge.run_one_with(ExecutionChannel::RenderApp, 100u64, |w: u64, t: u64| {
        (w + t, w * t)
    });
    assert_eq!(world, 103);
    assert_eq!(bridge.try_take(t1), Some(300));
    assert_eq!(bridge.try_take(t2), None);
    let world = bridge.run_one_with(ExecutionChannel::RenderApp, world, |w: u64, t: u64| {
        (w + t, w * t)
    });
    assert_eq!(world, 107);
    assert_eq!(bridge.try_take(t2), Some(412));
    // A visit with nothing queued leaves the world as it was.
    let world = bridge.run_one_with(ExecutionChannel::RenderApp, world, |w: u64, t: u64| (w, t));
    assert_eq!(world, 107);
}

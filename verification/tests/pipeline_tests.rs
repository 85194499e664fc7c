use commit_viz::config::RenderConfig;
use commit_viz::pipeline::{
    batch_size, default_batch_size, default_duration_secs, frame_bytes, plan_video, stats_index,
    total_frames, visible_count, Action, Event, FramePipeline, RenderError, Stage,
};

fn config(fps: u32, duration_secs: Option<u32>) -> RenderConfig {
    RenderConfig {
        input: "in.json".to_string(),
        output: "output.mp4".to_string(),
        fps,
        width: 1920,
        height: 1080,
        duration_secs,
        style: "network".to_string(),
        report_output: None,
        waste_output_dir: None,
    }
}

fn run(total: u64, batch: u64) -> (Vec<u64>, Vec<(u64, u64)>, FramePipeline) {
    let mut pipeline = FramePipeline::new(total, batch);
    let mut written = Vec::new();
    let mut batches = Vec::new();
    let mut action = pipeline.step(Event::Started);
    loop {
        action = match action {
            Action::RenderBatch { start, end } => {
                batches.push((start, end));
                pipeline.step(Event::BatchRendered)
            }
            Action::WriteFrame { index } => {
                written.push(index);
                pipeline.step(Event::FrameWritten)
            }
            Action::Finish => break,
            Action::Abort => panic!("the run was given up"),
        };
    }
    (written, batches, pipeline)
}

#[test]
fn eight_frames_of_four_workers_leave_in_order() {
    let (written, batches, pipeline) = run(8, batch_size(4));
    assert_eq!(written, vec![0, 1, 2, 3, 4, 5, 6, 7]);
    assert_eq!(batches, vec![(0, 8)]);
    assert_eq!(pipeline.stage, Stage::Finished);
    assert_eq!(pipeline.written, 8);
}

#[test]
fn frames_leave_in_order_across_batches() {
    let (written, batches, _) = run(8, 3);
    assert_eq!(written, vec![0, 1, 2, 3, 4, 5, 6, 7]);
    assert_eq!(batches, vec![(0, 3), (3, 6), (6, 8)]);
    let (written, batches, _) = run(1000, batch_size(7));
    assert_eq!(written, (0..1000).collect::<Vec<u64>>());
    assert_eq!(batches.len(), 72);
    assert_eq!(batches[71], (994, 1000));
}

#[test]
fn a_video_without_frames_finishes_at_once() {
    let mut pipeline = FramePipeline::new(0, 8);
    assert_eq!(pipeline.step(Event::Started), Action::Finish);
    assert_eq!(pipeline.stage, Stage::Finished);
}

#[test]
fn a_failed_render_ends_the_run() {
    let mut pipeline = FramePipeline::new(10, 4);
    assert_eq!(pipeline.step(Event::Started), Action::RenderBatch { start: 0, end: 4 });
    assert_eq!(pipeline.stage, Stage::BatchDispatch);
    assert_eq!(pipeline.step(Event::RenderFailed), Action::Abort);
    assert_eq!(pipeline.stage, Stage::Failed);
    assert_eq!(pipeline.step(Event::Started), Action::Abort);
    assert_eq!(pipeline.written, 0);
}

#[test]
fn a_failed_write_ends_the_run() {
    let mut pipeline = FramePipeline::new(10, 4);
    pipeline.step(Event::Started);
    assert_eq!(pipeline.step(Event::BatchRendered), Action::WriteFrame { index: 0 });
    assert_eq!(pipeline.stage, Stage::Drain);
    assert_eq!(pipeline.step(Event::FrameWritten), Action::WriteFrame { index: 1 });
    assert_eq!(pipeline.step(Event::WriteFailed), Action::Abort);
    assert_eq!(pipeline.stage, Stage::Failed);
    assert_eq!(pipeline.written, 1);
}

#[test]
fn an_event_out_of_turn_ends_the_run() {
    let mut pipeline = FramePipeline::new(10, 4);
    assert_eq!(pipeline.step(Event::FrameWritten), Action::Abort);
    assert_eq!(pipeline.stage, Stage::Failed);
}

#[test]
fn a_batch_holds_two_frames_for_every_worker() {
    assert_eq!(batch_size(4), 8);
    assert_eq!(batch_size(1), 2);
    assert_eq!(batch_size(0), 1);
    assert_eq!(batch_size(usize::MAX), u64::MAX);
    assert!(default_batch_size() >= 1);
    assert_eq!(FramePipeline::new(5, 0).batch_size, 1);
}

#[test]
fn the_length_follows_the_number_of_commits() {
    assert_eq!(default_duration_secs(0), 5);
    assert_eq!(default_duration_secs(50), 5);
    assert_eq!(default_duration_secs(51), 6);
    assert_eq!(default_duration_secs(60), 6);
    assert_eq!(default_duration_secs(1234), 124);
    assert_eq!(total_frames(&config(30, None), 1234), 124 * 30);
    assert_eq!(total_frames(&config(30, Some(10)), 1234), 300);
    assert_eq!(total_frames(&config(0, Some(10)), 1234), 0);
    assert_eq!(
        total_frames(&config(u32::MAX, Some(u32::MAX)), 1),
        u32::MAX as u64 * u32::MAX as u64
    );
}

#[test]
fn a_frame_is_four_bytes_a_pixel() {
    assert_eq!(frame_bytes(1920, 1080), 8_294_400);
    assert_eq!(frame_bytes(0, 1080), 0);
    assert_eq!(frame_bytes(u32::MAX, u32::MAX), 4 * (u32::MAX as u128) * (u32::MAX as u128));
}

#[test]
fn frames_reveal_the_commits_in_proportion() {
    assert_eq!(visible_count(0, 10, 100), 10);
    assert_eq!(visible_count(4, 10, 100), 50);
    assert_eq!(visible_count(9, 10, 100), 100);
    assert_eq!(visible_count(0, 300, 7), 1);
    assert_eq!(visible_count(42, 300, 7), 2);
    assert_eq!(visible_count(43, 300, 7), 2);
    assert_eq!(visible_count(299, 300, 7), 7);
    assert_eq!(visible_count(0, 3, 0), 0);
    assert_eq!(visible_count(u64::MAX - 1, u64::MAX, usize::MAX), usize::MAX);
}

#[test]
fn the_number_of_revealed_commits_never_falls() {
    for &(total, commits) in &[(150u64, 37usize), (30, 1000), (7, 7), (1, 5), (500, 1)] {
        let mut last = 0;
        for frame in 0..total {
            let v = visible_count(frame, total, commits);
            assert!(v >= last);
            assert!(v <= commits);
            assert!(v >= 1);
            last = v;
        }
        assert_eq!(last, commits);
    }
}

#[test]
fn the_snapshot_of_a_frame_is_that_of_its_last_commit() {
    assert_eq!(stats_index(0), None);
    assert_eq!(stats_index(1), Some(0));
    assert_eq!(stats_index(17), Some(16));
}

#[test]
fn no_commits_no_video() {
    assert_eq!(plan_video(&config(30, None), 0, 8), Err(RenderError::NoCommits));
    assert_eq!(RenderError::NoCommits.message(), "No commits to render");
    let plan = plan_video(&config(30, None), 12, 8).unwrap();
    assert_eq!(plan.total_frames, 150);
    assert_eq!(plan.batch_size, 8);
    assert_eq!(plan.stage, Stage::Idle);
    assert_eq!(plan.written, 0);
}

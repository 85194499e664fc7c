//! The frame pipeline: how many frames there are, how many commits each
//! frame reveals, and the order in which batches are rendered and frames are
//! written.
//!
//! The pipeline itself renders and writes nothing. It is a state machine
//! that is told what has happened and answers with what is to be done next.

use vstd::prelude::*;
use crate::config::RenderConfig;

verus! {

/// No video is shorter than this many seconds, unless it is configured so.
pub const MIN_DURATION_SECS: u32 = 5;

/// A video without a configured length shows this many commits per second.
pub const COMMITS_PER_SECOND: usize = 10;

/// Why no video can be rendered.
#[derive(Clone, Copy, Debug, PartialEq, Eq)]
pub enum RenderError {
    /// The history has no commits.
    NoCommits,
}

impl RenderError {
    pub fn message(&self) -> (text: String)
        ensures
            text@ == "No commits to render"@,
    {
        "No commits to render".to_owned()
    }
}

/// The length in seconds of a video of `num_commits` commits where none is
/// configured: a second for every ten commits, rounded up, and at least
/// five seconds.
pub open spec fn spec_default_duration(num_commits: nat) -> nat {
    let secs = (num_commits + 9) / 10;
    if secs < 5 {
        5
    } else if secs > u32::MAX {
        u32::MAX as nat
    } else {
        secs
    }
}

pub fn default_duration_secs(num_commits: usize) -> (secs: u32)
    ensures
        secs == spec_default_duration(num_commits as nat),
{
    let whole: usize = num_commits / COMMITS_PER_SECOND;
    let secs: usize = if num_commits % COMMITS_PER_SECOND == 0 {
        whole
    } else {
        whole + 1
    };
    if secs < MIN_DURATION_SECS as usize {
        MIN_DURATION_SECS
    } else if secs > u32::MAX as usize {
        u32::MAX
    } else {
        secs as u32
    }
}

/// The number of frames of the video: its length in seconds, configured or
/// derived from the number of commits, times the frame rate.
pub open spec fn spec_total_frames(config: &RenderConfig, num_commits: nat) -> nat {
    (match config.duration_secs {
        Some(secs) => secs as nat,
        None => spec_default_duration(num_commits),
    }) * config.fps as nat
}

pub fn total_frames(config: &RenderConfig, num_commits: usize) -> (frames: u64)
    ensures
        frames == spec_total_frames(config, num_commits as nat),
{
    let secs: u32 = match config.duration_secs {
        Some(secs) => secs,
        None => default_duration_secs(num_commits),
    };
    assert(secs * config.fps <= 0xffff_ffff * 0xffff_ffff) by (nonlinear_arith)
        requires
            0 <= secs <= 0xffff_ffff,
            0 <= config.fps <= 0xffff_ffff,
    ;
    secs as u64 * config.fps as u64
}

/// The number of bytes of one frame: four for every pixel.
pub fn frame_bytes(width: u32, height: u32) -> (bytes: u128)
    ensures
        bytes == width * height * 4,
{
    assert(width * height <= 0xffff_ffff * 0xffff_ffff) by (nonlinear_arith)
        requires
            0 <= width <= 0xffff_ffff,
            0 <= height <= 0xffff_ffff,
    ;
    width as u128 * height as u128 * 4
}

/// How many commits frame `frame` of `total` frames reveals: the share
/// `(frame + 1) / total` of the `num_commits` commits, rounded up.
pub open spec fn spec_visible_count(frame: nat, total: nat, num_commits: nat) -> nat {
    let raw = ((frame + 1) * num_commits + total - 1) / (total as int);
    if raw > num_commits {
        num_commits
    } else {
        raw as nat
    }
}

pub fn visible_count(frame: u64, total: u64, num_commits: usize) -> (count: usize)
    requires
        frame < total,
    ensures
        count == spec_visible_count(frame as nat, total as nat, num_commits as nat),
        count <= num_commits,
{
    let shown: u128 = frame as u128 + 1;
    assert(shown * num_commits <= 0x1_0000_0000_0000_0000 * 0xffff_ffff_ffff_ffff)
        by (nonlinear_arith)
        requires
            0 <= shown <= 0x1_0000_0000_0000_0000,
            0 <= num_commits <= 0xffff_ffff_ffff_ffff,
    ;
    let raw: u128 = (shown * num_commits as u128 + total as u128 - 1) / total as u128;
    if raw > num_commits as u128 {
        num_commits
    } else {
        raw as usize
    }
}

/// The place of the snapshot for a frame that reveals `visible` commits;
/// None for a frame that reveals none.
pub fn stats_index(visible: usize) -> (index: Option<usize>)
    ensures
        index == if visible > 0 {
            Some((visible - 1) as usize)
        } else {
            None
        },
{
    if visible > 0 {
        Some(visible - 1)
    } else {
        None
    }
}

/// From frame to frame the number of revealed commits never falls, it never
/// exceeds the number of commits, and the last frame reveals them all.
pub proof fn lemma_visible_count_grows(f: nat, g: nat, total: nat, num_commits: nat)
    requires
        f <= g < total,
    ensures
        spec_visible_count(f, total, num_commits) <= spec_visible_count(g, total, num_commits),
        spec_visible_count(g, total, num_commits) <= num_commits,
        spec_visible_count((total - 1) as nat, total, num_commits) == num_commits,
        num_commits > 0 ==> spec_visible_count(f, total, num_commits) >= 1,
{
    let n = num_commits as int;
    let t = total as int;
    let a = (f + 1) * n + t - 1;
    let b = (g + 1) * n + t - 1;
    assert(a <= b) by (nonlinear_arith)
        requires
            a == (f + 1) * n + t - 1,
            b == (g + 1) * n + t - 1,
            f <= g,
            0 <= n,
    ;
    assert(a / t <= b / t) by (nonlinear_arith)
        requires
            a <= b,
            t > 0,
    ;
    let last = t * n + t - 1;
    assert(last / t == n) by (nonlinear_arith)
        requires
            last == t * n + t - 1,
            t > 0,
            n >= 0,
    ;
    assert(((total - 1) as nat + 1) * n + t - 1 == last) by (nonlinear_arith)
        requires
            last == t * n + t - 1,
            total == t,
            t > 0,
    ;
    if n > 0 {
        assert(a >= t) by (nonlinear_arith)
            requires
                a == (f + 1) * n + t - 1,
                n >= 1,
                f >= 0,
        ;
        assert(a / t >= 1) by (nonlinear_arith)
            requires
                a >= t,
                t > 0,
        ;
    }
}

/// Frames rendered at once for `workers` parallel workers: two for every
/// worker, and at least one.
pub open spec fn spec_batch_size(workers: nat) -> nat {
    if workers == 0 {
        1
    } else if 2 * workers > u64::MAX {
        u64::MAX as nat
    } else {
        2 * workers
    }
}

pub fn batch_size(workers: usize) -> (size: u64)
    ensures
        size == spec_batch_size(workers as nat),
        size >= 1,
{
    let w: u64 = workers as u64;
    if w == 0 {
        1
    } else if w > u64::MAX / 2 {
        u64::MAX
    } else {
        2 * w
    }
}

/// `rayon::current_num_threads`: the number of threads of the pool that
/// renders. Nothing is claimed of the number.
#[verifier::external_body]
fn worker_count() -> (workers: usize) {
    rayon::current_num_threads()
}

/// The batch size for the worker pool of this process: the batch size of
/// however many workers the pool has.
pub fn default_batch_size() -> (size: u64)
    ensures
        exists|workers: nat| size == #[trigger] spec_batch_size(workers),
        size >= 1,
{
    let workers = worker_count();
    let size = batch_size(workers);
    assert(size == spec_batch_size(workers as nat));
    size
}

/// Where the pipeline stands.
#[derive(Clone, Copy, Debug, PartialEq, Eq, Structural)]
pub enum Stage {
    /// Between batches.
    Idle,
    /// A batch is being rendered.
    BatchDispatch,
    /// The frames of the rendered batch are being written.
    Drain,
    /// All frames have been written.
    Finished,
    /// A frame could not be rendered or written. Nothing more is done.
    Failed,
}

/// What has happened since the last action was handed out.
#[derive(Clone, Copy, Debug, PartialEq, Eq, Structural)]
pub enum Event {
    /// The run begins.
    Started,
    /// Every frame of the batch has been rendered.
    BatchRendered,
    /// A frame of the batch could not be rendered.
    RenderFailed,
    /// The frame has been written.
    FrameWritten,
    /// The frame could not be written.
    WriteFailed,
}

/// What is to be done next.
#[derive(Clone, Copy, Debug, PartialEq, Eq, Structural)]
pub enum Action {
    /// Render the frames from `start` up to, not including, `end`, in any
    /// order, and keep each under its index.
    RenderBatch { start: u64, end: u64 },
    /// Write the frame `index` to the stream.
    WriteFrame { index: u64 },
    /// Close the stream: the video is complete.
    Finish,
    /// Give up.
    Abort,
}

/// The state of a run.
#[derive(Clone, Copy, Debug, PartialEq, Eq, Structural)]
pub struct FramePipeline {
    pub total_frames: u64,
    pub batch_size: u64,
    pub stage: Stage,
    /// The end of the batch at hand; the number of frames written where
    /// there is none.
    pub batch_end: u64,
    /// The number of frames written to the stream: the frames 0 up to,
    /// not including, `written`, each once and in this order.
    pub written: u64,
}

impl FramePipeline {
    pub open spec fn wf(&self) -> bool {
        &&& self.batch_size >= 1
        &&& self.written <= self.batch_end <= self.total_frames
        &&& match self.stage {
            Stage::Idle => self.written == self.batch_end,
            Stage::BatchDispatch | Stage::Drain => self.written < self.batch_end,
            Stage::Finished => self.written == self.total_frames,
            Stage::Failed => true,
        }
    }

    /// The end of the batch that begins at frame `start`.
    pub open spec fn spec_batch_end(&self, start: u64) -> u64 {
        if start + self.batch_size > self.total_frames {
            self.total_frames
        } else {
            (start + self.batch_size) as u64
        }
    }

    /// The state that follows `self` on `event`, and the action to take:
    /// an idle pipeline dispatches the next batch, or finishes when all
    /// frames are written; a rendered batch is drained frame by frame in
    /// the order of the indices, and the pipeline turns to the next batch
    /// after the last of its frames; a failure, or an event that does not
    /// fit the stage, ends the run.
    pub open spec fn next(self, event: Event) -> (FramePipeline, Action) {
        match (self.stage, event) {
            (Stage::Idle, Event::Started) => self.dispatch(),
            (Stage::BatchDispatch, Event::BatchRendered) => (
                FramePipeline { stage: Stage::Drain, ..self },
                Action::WriteFrame { index: self.written },
            ),
            (Stage::Drain, Event::FrameWritten) => {
                let written = (self.written + 1) as u64;
                if written < self.batch_end {
                    (FramePipeline { written, ..self }, Action::WriteFrame { index: written })
                } else {
                    (FramePipeline { written, stage: Stage::Idle, ..self }).dispatch()
                }
            },
            _ => (FramePipeline { stage: Stage::Failed, ..self }, Action::Abort),
        }
    }

    /// What an idle pipeline does: the next batch, or the end.
    pub open spec fn dispatch(self) -> (FramePipeline, Action) {
        if self.written >= self.total_frames {
            (FramePipeline { stage: Stage::Finished, ..self }, Action::Finish)
        } else {
            let end = self.spec_batch_end(self.written);
            (
                FramePipeline { stage: Stage::BatchDispatch, batch_end: end, ..self },
                Action::RenderBatch { start: self.written, end },
            )
        }
    }

    /// An idle pipeline for `total_frames` frames, rendered `batch_size` at
    /// a time; a batch size of 0 counts as 1.
    pub fn new(total_frames: u64, batch_size: u64) -> (pipeline: FramePipeline)
        ensures
            pipeline.wf(),
            pipeline == (FramePipeline {
                total_frames,
                batch_size: if batch_size == 0 {
                    1
                } else {
                    batch_size
                },
                stage: Stage::Idle,
                batch_end: 0,
                written: 0,
            }),
    {
        FramePipeline {
            total_frames,
            batch_size: if batch_size == 0 {
                1
            } else {
                batch_size
            },
            stage: Stage::Idle,
            batch_end: 0,
            written: 0,
        }
    }

    fn start_batch(&mut self) -> (action: Action)
        requires
            old(self).wf(),
            old(self).stage == Stage::Idle,
        ensures
            (*final(self), action) == old(self).dispatch(),
            final(self).wf(),
    {
        if self.written >= self.total_frames {
            self.stage = Stage::Finished;
            Action::Finish
        } else {
            let end: u64 = if self.total_frames - self.written < self.batch_size {
                self.total_frames
            } else {
                self.written + self.batch_size
            };
            self.stage = Stage::BatchDispatch;
            self.batch_end = end;
            Action::RenderBatch { start: self.written, end }
        }
    }

    /// Takes note of `event` and says what to do next.
    pub fn step(&mut self, event: Event) -> (action: Action)
        requires
            old(self).wf(),
        ensures
            (*final(self), action) == old(self).next(event),
            final(self).wf(),
    {
        match (self.stage, event) {
            (Stage::Idle, Event::Started) => self.start_batch(),
            (Stage::BatchDispatch, Event::BatchRendered) => {
                self.stage = Stage::Drain;
                Action::WriteFrame { index: self.written }
            },
            (Stage::Drain, Event::FrameWritten) => {
                self.written = self.written + 1;
                if self.written < self.batch_end {
                    Action::WriteFrame { index: self.written }
                } else {
                    self.stage = Stage::Idle;
                    self.start_batch()
                }
            },
            _ => {
                self.stage = Stage::Failed;
                Action::Abort
            },
        }
    }
}

/// The pipeline for a video of `num_commits` commits: none for a history
/// without commits.
pub fn plan_video(config: &RenderConfig, num_commits: usize, batch_size: u64) -> (plan: Result<
    FramePipeline,
    RenderError,
>)
    ensures
        match plan {
            Ok(pipeline) => num_commits > 0 && pipeline.wf() && pipeline == (FramePipeline {
                total_frames: spec_total_frames(config, num_commits as nat) as u64,
                batch_size: if batch_size == 0 {
                    1
                } else {
                    batch_size
                },
                stage: Stage::Idle,
                batch_end: 0,
                written: 0,
            }),
            Err(e) => num_commits == 0 && e == RenderError::NoCommits,
        },
{
    if num_commits == 0 {
        Err(RenderError::NoCommits)
    } else {
        Ok(FramePipeline::new(total_frames(config, num_commits), batch_size))
    }
}

/// Frames leave in the order of their indices, without gap or repeat: a
/// frame is written only as the next after those already written, a batch
/// begins where the written frames end, and the run finishes only when
/// every frame has been written.
pub proof fn lemma_frames_in_order(pipeline: FramePipeline, event: Event)
    requires
        pipeline.wf(),
    ensures
        ({
            let (after, action) = pipeline.next(event);
            &&& after.wf()
            &&& after.total_frames == pipeline.total_frames
            &&& pipeline.written <= after.written <= pipeline.written + 1
            &&& after.written == pipeline.written + 1 <==> (pipeline.stage == Stage::Drain && event
                == Event::FrameWritten)
            &&& match action {
                Action::WriteFrame { index } => index == after.written && index
                    < after.total_frames && after.stage == Stage::Drain,
                Action::RenderBatch { start, end } => start == after.written && start < end
                    <= after.total_frames && end - start <= after.batch_size,
                Action::Finish => after.written == after.total_frames,
                Action::Abort => after.stage == Stage::Failed,
            }
        }),
{
}

} // verus!

use vstd::prelude::*;
use crate::error::FlowError;
use crate::perf::{PipelineProfile, pipeline_profile_zero};

verus! {

/// Whether a pipe handles one token at a time (serial) or any number at once.
#[derive(Clone, Copy, Debug, PartialEq, Eq, Structural)]
pub enum PipeType {
    Serial,
    Parallel,
}

/// One stage of a pipeline: its type and the work it runs on each token.
pub struct Pipe<F> {
    pipe_type: PipeType,
    task: F,
}

impl<F> Pipe<F> {
    pub closed spec fn spec_type(&self) -> PipeType {
        self.pipe_type
    }

    pub closed spec fn spec_task(&self) -> F {
        self.task
    }

    pub fn new(pipe_type: PipeType, task: F) -> (r: Self)
        ensures
            r.spec_type() == pipe_type,
            r.spec_task() == task,
    {
        Pipe { pipe_type, task }
    }

    pub fn serial(task: F) -> (r: Self)
        ensures
            r.spec_type() == PipeType::Serial,
            r.spec_task() == task,
    {
        Pipe::new(PipeType::Serial, task)
    }

    pub fn parallel(task: F) -> (r: Self)
        ensures
            r.spec_type() == PipeType::Parallel,
            r.spec_task() == task,
    {
        Pipe::new(PipeType::Parallel, task)
    }

    pub fn pipe_type(&self) -> (r: PipeType)
        ensures
            r == self.spec_type(),
    {
        self.pipe_type
    }

    pub fn task(&self) -> (r: &F)
        ensures
            *r == self.spec_task(),
    {
        &self.task
    }
}

/// Where a pipe invocation stands: line, pipe, token, and whether the first pipe
/// asked the pipeline to stop.
#[derive(Clone, Debug, PartialEq, Eq, Structural)]
pub struct PipeContext {
    line: usize,
    pipe: usize,
    token: usize,
    stop_requested: bool,
}

impl PipeContext {
    pub closed spec fn spec_line(&self) -> usize {
        self.line
    }

    pub closed spec fn spec_pipe(&self) -> usize {
        self.pipe
    }

    pub closed spec fn spec_token(&self) -> usize {
        self.token
    }

    pub closed spec fn spec_stop_requested(&self) -> bool {
        self.stop_requested
    }

    pub fn new(line: usize, pipe: usize, token: usize) -> (r: Self)
        ensures
            r.spec_line() == line,
            r.spec_pipe() == pipe,
            r.spec_token() == token,
            !r.spec_stop_requested(),
    {
        PipeContext { line, pipe, token, stop_requested: false }
    }

    pub fn line(&self) -> (r: usize)
        ensures
            r == self.spec_line(),
    {
        self.line
    }

    pub fn pipe(&self) -> (r: usize)
        ensures
            r == self.spec_pipe(),
    {
        self.pipe
    }

    pub fn token(&self) -> (r: usize)
        ensures
            r == self.spec_token(),
    {
        self.token
    }

    /// Asks the pipeline to stop issuing tokens; only the first pipe may.
    pub fn stop(&mut self)
        requires
            old(self).spec_pipe() == 0,
        ensures
            final(self).spec_stop_requested(),
            final(self).spec_line() == old(self).spec_line(),
            final(self).spec_pipe() == old(self).spec_pipe(),
            final(self).spec_token() == old(self).spec_token(),
    {
        self.stop_requested = true;
    }

    pub fn stop_requested(&self) -> (r: bool)
        ensures
            r == self.spec_stop_requested(),
    {
        self.stop_requested
    }

    /// Moves the context to another pipe of the same token.
    pub fn set_pipe(&mut self, pipe: usize)
        ensures
            final(self).spec_pipe() == pipe,
            final(self).spec_line() == old(self).spec_line(),
            final(self).spec_token() == old(self).spec_token(),
            final(self).spec_stop_requested() == old(self).spec_stop_requested(),
    {
        self.pipe = pipe;
    }
}

/// The types of a list of pipes.
pub open spec fn pipe_types<F>(pipes: Seq<Pipe<F>>) -> Seq<PipeType> {
    pipes.map_values(|p: Pipe<F>| p.spec_type())
}

/// A runnable stage list: at least one stage, the first one serial.
pub open spec fn valid_stages(types: Seq<PipeType>) -> bool {
    types.len() > 0 && types[0] == PipeType::Serial
}

/// A linear pipeline: a fixed number of parallel lines that carry tokens through
/// a fixed list of pipes.
pub struct Pipeline<F> {
    num_lines: usize,
    pipes: Vec<Pipe<F>>,
    num_tokens: usize,
    profile_enabled: bool,
    last_profile: PipelineProfile,
}

impl<F> Pipeline<F> {
    pub closed spec fn spec_num_lines(&self) -> usize {
        self.num_lines
    }

    pub closed spec fn spec_pipes(&self) -> Seq<Pipe<F>> {
        self.pipes@
    }

    pub closed spec fn spec_num_tokens(&self) -> usize {
        self.num_tokens
    }

    pub closed spec fn spec_profile_enabled(&self) -> bool {
        self.profile_enabled
    }

    pub closed spec fn spec_last_profile(&self) -> PipelineProfile {
        self.last_profile
    }

    /// A pipeline of `num_lines` lines (at least one) over `pipes` (at least one,
    /// the first serial); no token issued yet, profiling off.
    pub fn from_pipes(num_lines: usize, pipes: Vec<Pipe<F>>) -> (r: Self)
        requires
            num_lines > 0,
            valid_stages(pipe_types(pipes@)),
        ensures
            r.spec_num_lines() == num_lines,
            r.spec_pipes() == pipes@,
            r.spec_num_tokens() == 0,
            !r.spec_profile_enabled(),
            r.spec_last_profile() == pipeline_profile_zero(),
    {
        Pipeline { num_lines, pipes, num_tokens: 0, profile_enabled: false, last_profile: PipelineProfile::default() }
    }

    pub fn num_lines(&self) -> (r: usize)
        ensures
            r == self.spec_num_lines(),
    {
        self.num_lines
    }

    pub fn num_pipes(&self) -> (r: usize)
        ensures
            r == self.spec_pipes().len(),
    {
        self.pipes.len()
    }

    /// The number of tokens the last run issued.
    pub fn num_tokens(&self) -> (r: usize)
        ensures
            r == self.spec_num_tokens(),
    {
        self.num_tokens
    }

    pub fn pipes(&self) -> (r: &Vec<Pipe<F>>)
        ensures
            r@ == self.spec_pipes(),
    {
        &self.pipes
    }

    /// Turns profiling on or off; turning it off forgets the last profile.
    pub fn set_profile_enabled(&mut self, enabled: bool)
        ensures
            final(self).spec_profile_enabled() == enabled,
            final(self).spec_num_lines() == old(self).spec_num_lines(),
            final(self).spec_pipes() == old(self).spec_pipes(),
            final(self).spec_num_tokens() == old(self).spec_num_tokens(),
            final(self).spec_last_profile() == (if enabled { old(self).spec_last_profile() } else { pipeline_profile_zero() }),
    {
        self.profile_enabled = enabled;
        if !enabled {
            self.last_profile = PipelineProfile::default();
        }
    }

    pub fn profile_enabled(&self) -> (r: bool)
        ensures
            r == self.spec_profile_enabled(),
    {
        self.profile_enabled
    }

    pub fn last_profile(&self) -> (r: PipelineProfile)
        ensures
            r == self.spec_last_profile(),
    {
        self.last_profile
    }

    /// Forgets the token count and the last profile.
    pub fn reset(&mut self)
        ensures
            final(self).spec_num_tokens() == 0,
            final(self).spec_last_profile() == pipeline_profile_zero(),
            final(self).spec_num_lines() == old(self).spec_num_lines(),
            final(self).spec_pipes() == old(self).spec_pipes(),
            final(self).spec_profile_enabled() == old(self).spec_profile_enabled(),
    {
        self.num_tokens = 0;
        self.last_profile = PipelineProfile::default();
    }

    /// Records the outcome of a run: the tokens it issued and, when profiling
    /// is on, its profile (otherwise an empty one).
    pub fn finish_run(&mut self, num_tokens: usize, profile: PipelineProfile)
        ensures
            final(self).spec_num_tokens() == num_tokens,
            final(self).spec_last_profile() == (if old(self).spec_profile_enabled() { profile } else { pipeline_profile_zero() }),
            final(self).spec_num_lines() == old(self).spec_num_lines(),
            final(self).spec_pipes() == old(self).spec_pipes(),
            final(self).spec_profile_enabled() == old(self).spec_profile_enabled(),
    {
        self.num_tokens = num_tokens;
        self.last_profile = if self.profile_enabled { profile } else { PipelineProfile::default() };
    }
}

/// A pipeline whose pipes and line count can be replaced between runs.
pub struct ScalablePipeline<F> {
    num_lines: usize,
    pipes: Vec<Pipe<F>>,
    num_tokens: usize,
    profile_enabled: bool,
    last_profile: PipelineProfile,
}

/// A stage list a scalable pipeline accepts: empty, or starting with a serial pipe.
pub open spec fn resettable_stages(types: Seq<PipeType>) -> bool {
    types.len() == 0 || types[0] == PipeType::Serial
}

pub open spec fn no_pipes_message() -> Seq<char> {
    "pipeline has no pipes configured"@
}

impl<F> ScalablePipeline<F> {
    pub closed spec fn spec_num_lines(&self) -> usize {
        self.num_lines
    }

    pub closed spec fn spec_pipes(&self) -> Seq<Pipe<F>> {
        self.pipes@
    }

    pub closed spec fn spec_num_tokens(&self) -> usize {
        self.num_tokens
    }

    pub closed spec fn spec_profile_enabled(&self) -> bool {
        self.profile_enabled
    }

    pub closed spec fn spec_last_profile(&self) -> PipelineProfile {
        self.last_profile
    }

    /// A pipeline of `num_lines` lines (at least one) and no pipes yet.
    pub fn new(num_lines: usize) -> (r: Self)
        requires
            num_lines > 0,
        ensures
            r.spec_num_lines() == num_lines,
            r.spec_pipes().len() == 0,
            r.spec_num_tokens() == 0,
            !r.spec_profile_enabled(),
            r.spec_last_profile() == pipeline_profile_zero(),
    {
        ScalablePipeline { num_lines, pipes: Vec::new(), num_tokens: 0, profile_enabled: false, last_profile: PipelineProfile::default() }
    }

    pub fn from_pipes(num_lines: usize, pipes: Vec<Pipe<F>>) -> (r: Self)
        requires
            num_lines > 0,
            resettable_stages(pipe_types(pipes@)),
        ensures
            r.spec_num_lines() == num_lines,
            r.spec_pipes() == pipes@,
            r.spec_num_tokens() == 0,
            !r.spec_profile_enabled(),
            r.spec_last_profile() == pipeline_profile_zero(),
    {
        ScalablePipeline { num_lines, pipes, num_tokens: 0, profile_enabled: false, last_profile: PipelineProfile::default() }
    }

    pub fn num_lines(&self) -> (r: usize)
        ensures
            r == self.spec_num_lines(),
    {
        self.num_lines
    }

    pub fn num_pipes(&self) -> (r: usize)
        ensures
            r == self.spec_pipes().len(),
    {
        self.pipes.len()
    }

    pub fn num_tokens(&self) -> (r: usize)
        ensures
            r == self.spec_num_tokens(),
    {
        self.num_tokens
    }

    pub fn pipes(&self) -> (r: &Vec<Pipe<F>>)
        ensures
            r@ == self.spec_pipes(),
    {
        &self.pipes
    }

    pub fn set_profile_enabled(&mut self, enabled: bool)
        ensures
            final(self).spec_profile_enabled() == enabled,
            final(self).spec_num_lines() == old(self).spec_num_lines(),
            final(self).spec_pipes() == old(self).spec_pipes(),
            final(self).spec_num_tokens() == old(self).spec_num_tokens(),
            final(self).spec_last_profile() == (if enabled { old(self).spec_last_profile() } else { pipeline_profile_zero() }),
    {
        self.profile_enabled = enabled;
        if !enabled {
            self.last_profile = PipelineProfile::default();
        }
    }

    pub fn profile_enabled(&self) -> (r: bool)
        ensures
            r == self.spec_profile_enabled(),
    {
        self.profile_enabled
    }

    pub fn last_profile(&self) -> (r: PipelineProfile)
        ensures
            r == self.spec_last_profile(),
    {
        self.last_profile
    }

    pub fn reset(&mut self)
        ensures
            final(self).spec_num_tokens() == 0,
            final(self).spec_last_profile() == pipeline_profile_zero(),
            final(self).spec_num_lines() == old(self).spec_num_lines(),
            final(self).spec_pipes() == old(self).spec_pipes(),
            final(self).spec_profile_enabled() == old(self).spec_profile_enabled(),
    {
        self.num_tokens = 0;
        self.last_profile = PipelineProfile::default();
    }

    /// Replaces the pipes and starts the token count over.
    pub fn reset_with_pipes(&mut self, pipes: Vec<Pipe<F>>)
        requires
            resettable_stages(pipe_types(pipes@)),
        ensures
            final(self).spec_pipes() == pipes@,
            final(self).spec_num_tokens() == 0,
            final(self).spec_last_profile() == pipeline_profile_zero(),
            final(self).spec_num_lines() == old(self).spec_num_lines(),
            final(self).spec_profile_enabled() == old(self).spec_profile_enabled(),
    {
        self.pipes = pipes;
        self.num_tokens = 0;
        self.last_profile = PipelineProfile::default();
    }

    /// Replaces the line count and the pipes and starts the token count over.
    pub fn reset_with_lines_and_pipes(&mut self, num_lines: usize, pipes: Vec<Pipe<F>>)
        requires
            num_lines > 0,
            resettable_stages(pipe_types(pipes@)),
        ensures
            final(self).spec_num_lines() == num_lines,
            final(self).spec_pipes() == pipes@,
            final(self).spec_num_tokens() == 0,
            final(self).spec_last_profile() == pipeline_profile_zero(),
            final(self).spec_profile_enabled() == old(self).spec_profile_enabled(),
    {
        self.num_lines = num_lines;
        self.pipes = pipes;
        self.num_tokens = 0;
        self.last_profile = PipelineProfile::default();
    }

    /// Whether the pipeline can run: it needs at least one pipe.
    pub fn check_runnable(&self) -> (r: Result<(), FlowError>)
        ensures
            match r {
                Ok(()) => self.spec_pipes().len() > 0,
                Err(e) => self.spec_pipes().len() == 0 && e.spec_task_id() is None && e.spec_message() == no_pipes_message(),
            },
    {
        if self.pipes.len() == 0 {
            Err(FlowError::plain("pipeline has no pipes configured"))
        } else {
            Ok(())
        }
    }

    pub fn finish_run(&mut self, num_tokens: usize, profile: PipelineProfile)
        ensures
            final(self).spec_num_tokens() == num_tokens,
            final(self).spec_last_profile() == (if old(self).spec_profile_enabled() { profile } else { pipeline_profile_zero() }),
            final(self).spec_num_lines() == old(self).spec_num_lines(),
            final(self).spec_pipes() == old(self).spec_pipes(),
            final(self).spec_profile_enabled() == old(self).spec_profile_enabled(),
    {
        self.num_tokens = num_tokens;
        self.last_profile = if self.profile_enabled { profile } else { PipelineProfile::default() };
    }
}

/// One stage of a data pipeline: its type and the runner that moves a line's
/// value from the previous stage's slot to its own.
pub struct DataStage<R> {
    pub pipe_type: PipeType,
    pub runner: R,
}

pub open spec fn stage_types<R>(stages: Seq<DataStage<R>>) -> Seq<PipeType> {
    stages.map_values(|s: DataStage<R>| s.pipe_type)
}

/// Collects the stages of a data pipeline: a source, transforming stages, a sink.
pub struct DataPipelineBuilder<R> {
    num_lines: usize,
    stages: Vec<DataStage<R>>,
}

impl<R> DataPipelineBuilder<R> {
    pub closed spec fn spec_num_lines(&self) -> usize {
        self.num_lines
    }

    pub closed spec fn spec_stages(&self) -> Seq<DataStage<R>> {
        self.stages@
    }

    /// Adds the source stage, which produces each token's value.
    pub fn source(self, pipe_type: PipeType, runner: R) -> (r: Self)
        ensures
            r.spec_num_lines() == self.spec_num_lines(),
            r.spec_stages() == self.spec_stages().push(DataStage { pipe_type, runner }),
    {
        self.stage(pipe_type, runner)
    }

    /// Adds a stage that turns the previous stage's value into a new one.
    pub fn stage(self, pipe_type: PipeType, runner: R) -> (r: Self)
        ensures
            r.spec_num_lines() == self.spec_num_lines(),
            r.spec_stages() == self.spec_stages().push(DataStage { pipe_type, runner }),
    {
        let mut stages = self.stages;
        stages.push(DataStage { pipe_type, runner });
        DataPipelineBuilder { num_lines: self.num_lines, stages }
    }

    /// Adds the sink stage and builds the pipeline.
    pub fn sink(self, pipe_type: PipeType, runner: R) -> (r: DataPipeline<R>)
        requires
            valid_stages(stage_types(self.spec_stages().push(DataStage { pipe_type, runner }))),
            self.spec_num_lines() > 0,
        ensures
            r.spec_num_lines() == self.spec_num_lines(),
            r.spec_stages() == self.spec_stages().push(DataStage { pipe_type, runner }),
            r.spec_num_tokens() == 0,
            !r.spec_profile_enabled(),
            r.spec_last_profile() == pipeline_profile_zero(),
    {
        self.stage(pipe_type, runner).build()
    }

    /// Builds the pipeline from the stages added so far.
    pub fn build(self) -> (r: DataPipeline<R>)
        requires
            valid_stages(stage_types(self.spec_stages())),
            self.spec_num_lines() > 0,
        ensures
            r.spec_num_lines() == self.spec_num_lines(),
            r.spec_stages() == self.spec_stages(),
            r.spec_num_tokens() == 0,
            !r.spec_profile_enabled(),
            r.spec_last_profile() == pipeline_profile_zero(),
    {
        DataPipeline {
            num_lines: self.num_lines,
            stages: self.stages,
            num_tokens: 0,
            profile_enabled: false,
            last_profile: PipelineProfile::default(),
        }
    }
}

/// A pipeline that moves a value of each token from stage to stage.
pub struct DataPipeline<R> {
    num_lines: usize,
    stages: Vec<DataStage<R>>,
    num_tokens: usize,
    profile_enabled: bool,
    last_profile: PipelineProfile,
}

impl<R> DataPipeline<R> {
    pub closed spec fn spec_num_lines(&self) -> usize {
        self.num_lines
    }

    pub closed spec fn spec_stages(&self) -> Seq<DataStage<R>> {
        self.stages@
    }

    pub closed spec fn spec_num_tokens(&self) -> usize {
        self.num_tokens
    }

    pub closed spec fn spec_profile_enabled(&self) -> bool {
        self.profile_enabled
    }

    pub closed spec fn spec_last_profile(&self) -> PipelineProfile {
        self.last_profile
    }

    /// A builder for a pipeline of `num_lines` lines (at least one).
    pub fn builder(num_lines: usize) -> (r: DataPipelineBuilder<R>)
        requires
            num_lines > 0,
        ensures
            r.spec_num_lines() == num_lines,
            r.spec_stages().len() == 0,
    {
        DataPipelineBuilder { num_lines, stages: Vec::new() }
    }

    pub fn num_lines(&self) -> (r: usize)
        ensures
            r == self.spec_num_lines(),
    {
        self.num_lines
    }

    pub fn num_pipes(&self) -> (r: usize)
        ensures
            r == self.spec_stages().len(),
    {
        self.stages.len()
    }

    pub fn num_tokens(&self) -> (r: usize)
        ensures
            r == self.spec_num_tokens(),
    {
        self.num_tokens
    }

    pub fn stages(&self) -> (r: &Vec<DataStage<R>>)
        ensures
            r@ == self.spec_stages(),
    {
        &self.stages
    }

    pub fn set_profile_enabled(&mut self, enabled: bool)
        ensures
            final(self).spec_profile_enabled() == enabled,
            final(self).spec_num_lines() == old(self).spec_num_lines(),
            final(self).spec_stages() == old(self).spec_stages(),
            final(self).spec_num_tokens() == old(self).spec_num_tokens(),
            final(self).spec_last_profile() == (if enabled { old(self).spec_last_profile() } else { pipeline_profile_zero() }),
    {
        self.profile_enabled = enabled;
        if !enabled {
            self.last_profile = PipelineProfile::default();
        }
    }

    pub fn profile_enabled(&self) -> (r: bool)
        ensures
            r == self.spec_profile_enabled(),
    {
        self.profile_enabled
    }

    pub fn last_profile(&self) -> (r: PipelineProfile)
        ensures
            r == self.spec_last_profile(),
    {
        self.last_profile
    }

    pub fn reset(&mut self)
        ensures
            final(self).spec_num_tokens() == 0,
            final(self).spec_last_profile() == pipeline_profile_zero(),
            final(self).spec_num_lines() == old(self).spec_num_lines(),
            final(self).spec_stages() == old(self).spec_stages(),
            final(self).spec_profile_enabled() == old(self).spec_profile_enabled(),
    {
        self.num_tokens = 0;
        self.last_profile = PipelineProfile::default();
    }

    pub fn finish_run(&mut self, num_tokens: usize, profile: PipelineProfile)
        ensures
            final(self).spec_num_tokens() == num_tokens,
            final(self).spec_last_profile() == (if old(self).spec_profile_enabled() { profile } else { pipeline_profile_zero() }),
            final(self).spec_num_lines() == old(self).spec_num_lines(),
            final(self).spec_stages() == old(self).spec_stages(),
            final(self).spec_profile_enabled() == old(self).spec_profile_enabled(),
    {
        self.num_tokens = num_tokens;
        self.last_profile = if self.profile_enabled { profile } else { PipelineProfile::default() };
    }
}

/// Batches a line issues its tokens in: sixteen at a time on a single line
/// (nothing competes for the first pipe), one at a time otherwise so that tokens
/// keep their order across stages.
pub fn compute_batch_size(num_lines: usize) -> (r: usize)
    ensures
        r == (if num_lines <= 1 { 16usize } else { 1usize }),
{
    if num_lines <= 1 { 16 } else { 1 }
}

/// Lines are spawned where any worker can take them unless every pipe is serial
/// (then they stay with the spawning worker, which keeps token order at the sink).
pub fn should_global_spawn_pipeline_lines(stage_is_serial: &Vec<bool>) -> (r: bool)
    ensures
        r == exists|i: int| 0 <= i < stage_is_serial@.len() && !stage_is_serial@[i],
{
    let mut i: usize = 0;
    while i < stage_is_serial.len()
        invariant
            i <= stage_is_serial@.len(),
            forall|k: int| 0 <= k < i ==> stage_is_serial@[k],
        decreases stage_is_serial@.len() - i,
    {
        if !stage_is_serial[i] {
            return true;
        }
        i = i + 1;
    }
    false
}

/// The run-wide flag bit set when the first pipe asked to stop.
pub const STOP_REQUESTED: u8 = 1;
/// The run-wide flag bit set when a line failed.
pub const ABORT_REQUESTED: u8 = 2;

/// No new token is issued once a stop or an abort was requested, or the run was
/// cancelled.
pub fn should_stop_issuing_tokens(flags: u8, cancelled: bool) -> (r: bool)
    ensures
        r == (flags != 0 || cancelled),
{
    flags != 0 || cancelled
}

/// Waiting lines give up at once on an abort or a cancellation.
pub fn should_abort_immediately(flags: u8, cancelled: bool) -> (r: bool)
    ensures
        r == ((flags & ABORT_REQUESTED) != 0 || cancelled),
{
    (flags & ABORT_REQUESTED) != 0 || cancelled
}

/// A batch of tokens a line issues through the first pipe while it holds it:
/// tokens `start, start + 1, ...`, at most `size` of them, until the first pipe
/// asks to stop (that token is not counted).
pub struct TokenBatch {
    start: usize,
    size: usize,
    issued: usize,
    stopped: bool,
}

impl TokenBatch {
    pub closed spec fn spec_start(&self) -> nat {
        self.start as nat
    }

    pub closed spec fn spec_size(&self) -> nat {
        self.size as nat
    }

    pub closed spec fn spec_issued(&self) -> nat {
        self.issued as nat
    }

    pub closed spec fn spec_stopped(&self) -> bool {
        self.stopped
    }

    pub closed spec fn wf(&self) -> bool {
        self.issued <= self.size && self.start + self.size <= usize::MAX
    }

    pub fn new(start: usize, size: usize) -> (r: Self)
        requires
            start + size <= usize::MAX,
        ensures
            r.wf(),
            r.spec_start() == start,
            r.spec_size() == size,
            r.spec_issued() == 0,
            !r.spec_stopped(),
    {
        TokenBatch { start, size, issued: 0, stopped: false }
    }

    /// The token to offer the first pipe next, if the batch goes on.
    pub fn next_token(&self) -> (r: Option<usize>)
        requires
            self.wf(),
        ensures
            (!self.spec_stopped() && self.spec_issued() < self.spec_size()) ==> r == Some((self.spec_start() + self.spec_issued()) as usize),
            (self.spec_stopped() || self.spec_issued() >= self.spec_size()) ==> r is None,
    {
        if !self.stopped && self.issued < self.size {
            Some(self.start + self.issued)
        } else {
            None
        }
    }

    /// The first pipe handled the offered token; `stop` tells whether it asked to
    /// stop instead of producing it.
    pub fn record(&mut self, stop: bool)
        requires
            old(self).wf(),
            !old(self).spec_stopped(),
            old(self).spec_issued() < old(self).spec_size(),
        ensures
            final(self).wf(),
            final(self).spec_start() == old(self).spec_start(),
            final(self).spec_size() == old(self).spec_size(),
            stop ==> final(self).spec_stopped() && final(self).spec_issued() == old(self).spec_issued(),
            !stop ==> !final(self).spec_stopped() && final(self).spec_issued() == old(self).spec_issued() + 1,
    {
        if stop {
            self.stopped = true;
        } else {
            self.issued = self.issued + 1;
        }
    }

    /// How many tokens the batch issued.
    pub fn issued(&self) -> (r: usize)
        ensures
            r == self.spec_issued(),
    {
        self.issued
    }

    pub fn stopped(&self) -> (r: bool)
        ensures
            r == self.spec_stopped(),
    {
        self.stopped
    }

    /// The next token number after the batch: issued tokens are committed, a stop
    /// token is not.
    pub fn committed_next(&self) -> (r: usize)
        requires
            self.wf(),
        ensures
            r == self.spec_start() + self.spec_issued(),
    {
        self.start + self.issued
    }
}

/// A line's batch run to its end: from `issued` tokens, it offers the next
/// token while fewer than `size` were issued and nothing stopped, and the
/// first pipe answers `stops[i]` for token `i` of the batch (`record` states
/// each step).  How many tokens were issued, and whether it stopped.
pub open spec fn batch_run(size: nat, issued: nat, stops: Seq<bool>) -> (nat, bool)
    decreases size - issued,
{
    if issued >= size || issued >= stops.len() {
        (issued, false)
    } else if stops[issued as int] {
        (issued, true)
    } else {
        batch_run(size, issued + 1, stops)
    }
}

/// Law: a batch whose first pipe first asks to stop at token `m` of the
/// batch (before `size` tokens) issues exactly the `m` tokens before it and
/// stops; the stop token is not issued, so the run's next token is
/// `start + m`.
pub proof fn lemma_batch_stops_at_first_stop(size: nat, stops: Seq<bool>, m: nat, issued: nat)
    requires
        issued <= m < size,
        m < stops.len(),
        stops[m as int],
        forall|j: int| issued <= j < m ==> !#[trigger] stops[j],
    ensures
        batch_run(size, issued, stops) == ((m, true)),
    decreases m - issued,
{
    if issued < m {
        lemma_batch_stops_at_first_stop(size, stops, m, issued + 1);
    }
}

/// Law: a batch whose first pipe never asks to stop issues all `size` of its
/// tokens.
pub proof fn lemma_batch_without_stop_is_full(size: nat, stops: Seq<bool>, issued: nat)
    requires
        issued <= size <= stops.len(),
        forall|j: int| issued <= j < size ==> !#[trigger] stops[j],
    ensures
        batch_run(size, issued, stops) == ((size, false)),
    decreases size - issued,
{
    if issued < size {
        lemma_batch_without_stop_is_full(size, stops, issued + 1);
    }
}

/// A waiting line checks the run's stop and abort requests on every this
/// many failed attempts at a serial pipe's lock.
pub const STOP_CHECK_INTERVAL: u64 = 8;

/// What a line waiting for a serial pipe does after a failed attempt.
#[derive(PartialEq, Eq, Structural, Debug, Clone, Copy)]
pub enum SerialWaitAction {
    /// Give up the wait: the run is aborting, or stopping at the first pipe.
    Stop,
    /// Spin once and try again.
    Spin,
    /// Yield the time slice and try again.
    Yield,
}

/// The wait of one line for a serial pipe's lock.
pub struct SerialStageWait {
    stop_if_requested: bool,
    retry_checks: u64,
    spins_since_yield: u64,
    total_spins: u64,
    total_yields: u64,
}

/// The counts of a serial-stage wait: attempts, spins since the last yield,
/// spins and yields in all.
pub struct SerialWaitView {
    pub stop_if_requested: bool,
    pub retry_checks: nat,
    pub spins_since_yield: nat,
    pub total_spins: nat,
    pub total_yields: nat,
}

/// How many attempts a waiting line makes between two yields: more at the
/// first pipe, which issues the tokens.
pub open spec fn serial_max_spins(stop_if_requested: bool) -> nat {
    if stop_if_requested {
        32
    } else {
        16
    }
}

/// `n + 1` in a 64-bit counter that wraps.
pub open spec fn bump(n: nat) -> nat {
    ((n + 1) % 0x1_0000_0000_0000_0000) as nat
}

/// The action after a failed attempt, from the wait so far and the run's
/// abort and stop requests.
pub open spec fn serial_wait_action(w: SerialWaitView, abort: bool, stop: bool) -> SerialWaitAction {
    if bump(w.retry_checks) % (STOP_CHECK_INTERVAL as nat) == 0 && (abort || (w.stop_if_requested
        && stop)) {
        SerialWaitAction::Stop
    } else if w.spins_since_yield + 1 < serial_max_spins(w.stop_if_requested) {
        SerialWaitAction::Spin
    } else {
        SerialWaitAction::Yield
    }
}

/// The wait after a failed attempt that led to `action`.
pub open spec fn serial_wait_next(w: SerialWaitView, action: SerialWaitAction) -> SerialWaitView {
    let checked = SerialWaitView { retry_checks: bump(w.retry_checks), ..w };
    match action {
        SerialWaitAction::Stop => checked,
        SerialWaitAction::Spin => SerialWaitView {
            spins_since_yield: w.spins_since_yield + 1,
            total_spins: bump(w.total_spins),
            ..checked
        },
        SerialWaitAction::Yield => SerialWaitView {
            spins_since_yield: 0,
            total_yields: bump(w.total_yields),
            ..checked
        },
    }
}

impl View for SerialStageWait {
    type V = SerialWaitView;

    closed spec fn view(&self) -> SerialWaitView {
        SerialWaitView {
            stop_if_requested: self.stop_if_requested,
            retry_checks: self.retry_checks as nat,
            spins_since_yield: self.spins_since_yield as nat,
            total_spins: self.total_spins as nat,
            total_yields: self.total_yields as nat,
        }
    }
}

impl SerialStageWait {
    #[verifier::type_invariant]
    spec fn below_max_spins(self) -> bool {
        self.spins_since_yield < serial_max_spins(self.stop_if_requested)
    }

    /// A wait that begins after a first failed attempt; `stop_if_requested`
    /// is set for the first pipe, whose wait also ends on a stop request.
    pub fn new(stop_if_requested: bool) -> (r: Self)
        ensures
            r@ == (SerialWaitView {
                stop_if_requested,
                retry_checks: 0,
                spins_since_yield: 0,
                total_spins: 0,
                total_yields: 0,
            }),
    {
        SerialStageWait { stop_if_requested, retry_checks: 0, spins_since_yield: 0, total_spins: 0, total_yields: 0 }
    }

    /// Another attempt failed: counts it and decides, from the run's abort
    /// and stop requests, whether to give up, spin or yield.  The requests
    /// are heeded only on every `STOP_CHECK_INTERVAL`-th attempt.
    pub fn after_failed_attempt(&mut self, abort: bool, stop: bool) -> (r: SerialWaitAction)
        ensures
            r == serial_wait_action(old(self)@, abort, stop),
            final(self)@ == serial_wait_next(old(self)@, r),
            final(self)@.spins_since_yield < serial_max_spins(final(self)@.stop_if_requested),
    {
        proof {
            use_type_invariant(&*self);
        }
        self.retry_checks = self.retry_checks.wrapping_add(1);
        proof {
            assert(self.retry_checks as nat == bump(old(self)@.retry_checks)) by {
                assert(old(self)@.retry_checks < 0x1_0000_0000_0000_0000);
            }
        }
        if self.retry_checks % STOP_CHECK_INTERVAL == 0 && (abort || (self.stop_if_requested && stop)) {
            return SerialWaitAction::Stop;
        }
        let max_spins: u64 = if self.stop_if_requested { 32 } else { 16 };
        if self.spins_since_yield + 1 < max_spins {
            self.spins_since_yield = self.spins_since_yield + 1;
            self.total_spins = self.total_spins.wrapping_add(1);
            return SerialWaitAction::Spin;
        }
        self.spins_since_yield = 0;
        self.total_yields = self.total_yields.wrapping_add(1);
        SerialWaitAction::Yield
    }

    /// How many times the wait spun.
    pub fn total_spins(&self) -> (r: u64)
        ensures
            r == self@.total_spins,
    {
        self.total_spins
    }

    /// How many times the wait yielded.
    pub fn total_yields(&self) -> (r: u64)
        ensures
            r == self@.total_yields,
    {
        self.total_yields
    }
}

} // verus!

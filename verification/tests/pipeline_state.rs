use rustflow::perf::PipelineProfile;
use rustflow::pipeline::{
    compute_batch_size, should_abort_immediately, should_global_spawn_pipeline_lines, should_stop_issuing_tokens,
    DataPipeline, Pipe, PipeContext, PipeType, Pipeline, ScalablePipeline, SerialStageWait, SerialWaitAction,
    TokenBatch, ABORT_REQUESTED, STOP_REQUESTED,
};

fn busy_profile() -> PipelineProfile {
    let mut profile = PipelineProfile::default();
    profile.record_stage_fast_path(true);
    profile
}

#[test]
fn pipes_keep_their_type_and_task() {
    let serial = Pipe::serial(7u32);
    let parallel = Pipe::parallel(8u32);
    assert_eq!(serial.pipe_type(), PipeType::Serial);
    assert_eq!(*serial.task(), 7);
    assert_eq!(parallel.pipe_type(), PipeType::Parallel);
    assert_eq!(*Pipe::new(PipeType::Parallel, 9u32).task(), 9);
}

#[test]
fn pipe_context_stop_and_move_between_pipes() {
    let mut context = PipeContext::new(2, 0, 5);
    assert!(!context.stop_requested());
    context.stop();
    assert!(context.stop_requested());
    context.set_pipe(3);
    assert_eq!((context.line(), context.pipe(), context.token()), (2, 3, 5));
    assert!(context.stop_requested());
}

#[test]
fn pipeline_records_runs_and_profiles_only_when_enabled() {
    let mut pipeline = Pipeline::from_pipes(3, vec![Pipe::serial(0u8), Pipe::parallel(1u8)]);
    assert_eq!((pipeline.num_lines(), pipeline.num_pipes(), pipeline.num_tokens()), (3, 2, 0));
    assert!(!pipeline.profile_enabled());
    pipeline.finish_run(10, busy_profile());
    assert_eq!(pipeline.num_tokens(), 10);
    assert_eq!(pipeline.last_profile(), PipelineProfile::default());
    pipeline.set_profile_enabled(true);
    pipeline.finish_run(12, busy_profile());
    assert_eq!(pipeline.last_profile(), busy_profile());
    pipeline.reset();
    assert_eq!(pipeline.num_tokens(), 0);
    assert_eq!(pipeline.last_profile(), PipelineProfile::default());
    assert!(pipeline.profile_enabled());
}

#[test]
fn scalable_pipeline_needs_pipes_and_can_be_reset_with_new_ones() {
    let mut pipeline: ScalablePipeline<u8> = ScalablePipeline::new(2);
    let error = pipeline.check_runnable().unwrap_err();
    assert_eq!(error.message(), "pipeline has no pipes configured");
    assert!(error.task_id().is_none());
    pipeline.reset_with_pipes(vec![Pipe::serial(1u8)]);
    assert!(pipeline.check_runnable().is_ok());
    assert_eq!((pipeline.num_lines(), pipeline.num_pipes()), (2, 1));
    pipeline.finish_run(4, busy_profile());
    pipeline.reset_with_lines_and_pipes(5, vec![Pipe::serial(1u8), Pipe::serial(2u8), Pipe::parallel(3u8)]);
    assert_eq!((pipeline.num_lines(), pipeline.num_pipes(), pipeline.num_tokens()), (5, 3, 0));
}

#[test]
fn data_pipeline_builder_collects_stages_in_order() {
    let pipeline = DataPipeline::builder(4)
        .source(PipeType::Serial, 'a')
        .stage(PipeType::Parallel, 'b')
        .sink(PipeType::Serial, 'c');
    assert_eq!(pipeline.num_lines(), 4);
    assert_eq!(pipeline.num_pipes(), 3);
    let runners: Vec<char> = pipeline.stages().iter().map(|stage| stage.runner).collect();
    assert_eq!(runners, vec!['a', 'b', 'c']);
    assert_eq!(pipeline.stages()[1].pipe_type, PipeType::Parallel);
    assert_eq!(pipeline.num_tokens(), 0);
}

#[test]
fn batch_size_and_spawn_placement() {
    assert_eq!(compute_batch_size(0), 16);
    assert_eq!(compute_batch_size(1), 16);
    assert_eq!(compute_batch_size(2), 1);
    assert!(!should_global_spawn_pipeline_lines(&vec![true, true]));
    assert!(should_global_spawn_pipeline_lines(&vec![true, false, true]));
    assert!(!should_global_spawn_pipeline_lines(&vec![]));
}

#[test]
fn stop_and_abort_flags() {
    assert!(!should_stop_issuing_tokens(0, false));
    assert!(should_stop_issuing_tokens(STOP_REQUESTED, false));
    assert!(should_stop_issuing_tokens(0, true));
    assert!(!should_abort_immediately(STOP_REQUESTED, false));
    assert!(should_abort_immediately(ABORT_REQUESTED, false));
    assert!(should_abort_immediately(STOP_REQUESTED | ABORT_REQUESTED, false));
    assert!(should_abort_immediately(0, true));
}

#[test]
fn token_batch_issues_until_full_or_stopped() {
    let mut batch = TokenBatch::new(10, 3);
    assert_eq!(batch.next_token(), Some(10));
    batch.record(false);
    assert_eq!(batch.next_token(), Some(11));
    batch.record(false);
    batch.record(true);
    assert!(batch.stopped());
    assert_eq!(batch.next_token(), None);
    assert_eq!((batch.issued(), batch.committed_next()), (2, 12));

    let mut full = TokenBatch::new(0, 2);
    full.record(false);
    full.record(false);
    assert_eq!(full.next_token(), None);
    assert_eq!(full.committed_next(), 2);
}

#[test]
fn serial_wait_spins_then_yields_by_pipe_position() {
    let mut first = SerialStageWait::new(true);
    for _ in 0..31 {
        assert_eq!(first.after_failed_attempt(false, false), SerialWaitAction::Spin);
    }
    assert_eq!(first.after_failed_attempt(false, false), SerialWaitAction::Yield);
    assert_eq!((first.total_spins(), first.total_yields()), (31, 1));

    let mut later = SerialStageWait::new(false);
    for _ in 0..15 {
        assert_eq!(later.after_failed_attempt(false, false), SerialWaitAction::Spin);
    }
    assert_eq!(later.after_failed_attempt(false, false), SerialWaitAction::Yield);
    assert_eq!(later.after_failed_attempt(false, false), SerialWaitAction::Spin);
}

#[test]
fn serial_wait_heeds_requests_on_every_eighth_attempt() {
    let mut first = SerialStageWait::new(true);
    for _ in 0..7 {
        assert_eq!(first.after_failed_attempt(false, true), SerialWaitAction::Spin);
    }
    assert_eq!(first.after_failed_attempt(false, true), SerialWaitAction::Stop);

    let mut later = SerialStageWait::new(false);
    for _ in 0..7 {
        assert_eq!(later.after_failed_attempt(false, true), SerialWaitAction::Spin);
    }
    assert_eq!(later.after_failed_attempt(false, true), SerialWaitAction::Spin);
    for _ in 0..7 {
        later.after_failed_attempt(true, false);
    }
    assert_eq!(later.after_failed_attempt(true, false), SerialWaitAction::Stop);
}

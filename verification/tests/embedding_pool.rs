use toak_rs::embedding_pool::{
    collect_ordered, default_pool_size, dispatch_result, job_result, single_embedding,
    timeout_secs_from, wait_left_millis, EmbedError, EmbeddingPool, JobOutcome, NoEmbedding, PoolInitError, ReadySignal,
    Reassembly, SendOutcome, DEFAULT_INIT_TIMEOUT_SECS, DEFAULT_JOB_BATCH, DEFAULT_JOB_TIMEOUT_SECS,
    WORKER_QUEUE_DEPTH,
};

fn ready(n: usize) -> Vec<ReadySignal> {
    (0..n).map(|_| ReadySignal::Ready).collect()
}

fn texts(items: &[&str]) -> Vec<String> {
    items.iter().map(|s| s.to_string()).collect()
}

/// Stands in for a model: a vector that depends on nothing but the text.
fn fake_vector(text: &str) -> Vec<u32> {
    vec![(text.len() as f32).to_bits(), (text.chars().count() as f32 * 0.5).to_bits()]
}

#[test]
fn defaults_are_as_documented() {
    assert_eq!(DEFAULT_INIT_TIMEOUT_SECS, 20);
    assert_eq!(DEFAULT_JOB_TIMEOUT_SECS, 120);
    assert_eq!(DEFAULT_JOB_BATCH, 2048);
    assert_eq!(WORKER_QUEUE_DEPTH, 32);
}

#[test]
fn default_pool_has_one_to_four_workers() {
    assert_eq!(default_pool_size(Some(8)), 4);
    assert_eq!(default_pool_size(Some(4)), 4);
    assert_eq!(default_pool_size(Some(2)), 2);
    assert_eq!(default_pool_size(Some(0)), 1);
    assert_eq!(default_pool_size(None), 4);
}

#[test]
fn pool_starts_when_all_workers_are_ready() {
    let pool = EmbeddingPool::new(2, &ready(2), 20).ok().unwrap();
    assert_eq!(pool.workers(), 2);
}

#[test]
fn pool_of_zero_has_one_worker() {
    let pool = EmbeddingPool::new(0, &ready(1), 20).ok().unwrap();
    assert_eq!(pool.workers(), 1);
}

#[test]
fn pool_fails_when_a_worker_never_signals() {
    let signals = vec![ReadySignal::Ready, ReadySignal::TimedOut];
    let result = EmbeddingPool::new(2, &signals, 20);
    assert!(matches!(result, Err(PoolInitError::TimedOut { worker: 1, timeout_secs: 20 })));
}

#[test]
fn pool_fails_when_a_signal_is_missing() {
    let result = EmbeddingPool::new(3, &ready(1), 7);
    assert!(matches!(result, Err(PoolInitError::TimedOut { worker: 1, timeout_secs: 7 })));
}

#[test]
fn pool_fails_with_the_first_worker_that_is_not_ready() {
    let signals = vec![
        ReadySignal::Ready,
        ReadySignal::Failed("no model".to_string()),
        ReadySignal::TimedOut,
    ];
    match EmbeddingPool::new(3, &signals, 20) {
        Err(PoolInitError::WorkerFailed { worker, reason }) => {
            assert_eq!(worker, 1);
            assert_eq!(reason, "no model");
        }
        _ => panic!("the pool must not start"),
    }
}

#[test]
fn workers_take_jobs_in_turn() {
    let mut pool = EmbeddingPool::new(3, &ready(3), 20).ok().unwrap();
    let picked: Vec<usize> = (0..7).map(|_| pool.next_worker()).collect();
    assert_eq!(picked, vec![0, 1, 2, 0, 1, 2, 0]);
}

#[test]
fn single_job_holds_all_its_texts() {
    let mut pool = EmbeddingPool::new(2, &ready(2), 20).ok().unwrap();
    let first = pool.embed(texts(&["query"]), None);
    assert_eq!(first.texts, texts(&["query"]));
    assert_eq!(first.batch_size, None);
    assert_eq!(first.worker, 0);
    assert_eq!(first.start, 0);
    let second = pool.embed(texts(&["a", "b"]), Some(8));
    assert_eq!(second.worker, 1);
    assert_eq!(second.batch_size, Some(8));
}

#[test]
fn jobs_slice_the_texts_in_order() {
    let mut pool = EmbeddingPool::new(2, &ready(2), 20).ok().unwrap();
    let all = texts(&["a", "b", "c", "d", "e"]);
    let jobs = pool.plan_jobs(&all, Some(2), Some(16));
    assert_eq!(jobs.len(), 3);
    assert_eq!(jobs[0].texts, texts(&["a", "b"]));
    assert_eq!(jobs[1].texts, texts(&["c", "d"]));
    assert_eq!(jobs[2].texts, texts(&["e"]));
    assert_eq!(jobs.iter().map(|j| j.start).collect::<Vec<_>>(), vec![0, 2, 4]);
    assert_eq!(jobs.iter().map(|j| j.worker).collect::<Vec<_>>(), vec![0, 1, 0]);
    assert!(jobs.iter().all(|j| j.batch_size == Some(16)));
    // the cursor moved on by three: the next job goes to worker 1
    assert_eq!(pool.next_worker(), 1);
}

#[test]
fn job_batch_defaults_to_2048_and_is_at_least_one() {
    let mut pool = EmbeddingPool::new(4, &ready(4), 20).ok().unwrap();
    let all: Vec<String> = (0..2049).map(|i| i.to_string()).collect();
    let jobs = pool.plan_jobs(&all, None, None);
    assert_eq!(jobs.iter().map(|j| j.texts.len()).collect::<Vec<_>>(), vec![2048, 1]);
    let jobs = pool.plan_jobs(&texts(&["a", "b"]), Some(0), None);
    assert_eq!(jobs.iter().map(|j| j.texts.len()).collect::<Vec<_>>(), vec![1, 1]);
    assert!(pool.plan_jobs(&Vec::new(), Some(3), None).is_empty());
}

#[test]
fn each_outcome_has_its_result() {
    assert_eq!(job_result(JobOutcome::Completed(vec![vec![1, 2]]), 120).ok(), Some(vec![vec![1, 2]]));
    assert!(matches!(
        job_result(JobOutcome::Failed("bad input".to_string()), 120),
        Err(EmbedError::WorkerFailed { reason }) if reason == "bad input"
    ));
    assert!(matches!(
        job_result(JobOutcome::Panicked { worker: 3 }, 120),
        Err(EmbedError::WorkerPanic { worker: 3 })
    ));
    assert!(matches!(
        job_result(JobOutcome::Dropped("channel closed".to_string()), 120),
        Err(EmbedError::WorkerDropped { reason }) if reason == "channel closed"
    ));
    assert!(matches!(
        job_result(JobOutcome::TimedOut, 45),
        Err(EmbedError::JobTimeout { timeout_secs: 45 })
    ));
}

#[test]
fn batches_go_to_their_slots() {
    let mut out = Reassembly::new(4);
    assert_eq!(out.len(), 4);
    out.place(2, vec![vec![30], vec![40]]);
    out.place(0, vec![vec![10]]);
    assert_eq!(out.finish(), vec![vec![10], vec![], vec![30], vec![40]]);
}

#[test]
fn failed_answer_leaves_the_slots_alone() {
    let mut out = Reassembly::new(2);
    assert!(out.accept(0, JobOutcome::Completed(vec![vec![1]]), 120).is_ok());
    assert!(matches!(
        out.accept(1, JobOutcome::TimedOut, 120),
        Err(EmbedError::JobTimeout { timeout_secs: 120 })
    ));
    assert_eq!(out.finish(), vec![vec![1], vec![]]);
}

#[test]
fn ordered_reassembly_gives_each_text_its_own_vector() {
    let all = texts(&["alpha", "be", "gamma delta", "d", "epsilon", "zeta eta", "th"]);
    let expected: Vec<Vec<u32>> = all.iter().map(|t| fake_vector(t)).collect();
    for workers in 1..5usize {
        for per_job in 1..9usize {
            let mut pool = EmbeddingPool::new(workers, &ready(workers), 20).ok().unwrap();
            let jobs = pool.plan_jobs(&all, Some(per_job), None);
            let answers: Vec<(usize, JobOutcome)> = jobs
                .iter()
                .map(|job| {
                    assert!(job.worker < workers);
                    let vectors = job.texts.iter().map(|t| fake_vector(t)).collect();
                    (job.start, JobOutcome::Completed(vectors))
                })
                .collect();
            let vectors = collect_ordered(all.len(), answers, 120).ok().unwrap();
            assert_eq!(vectors.len(), all.len());
            assert_eq!(vectors, expected);
        }
    }
}

#[test]
fn first_failed_answer_fails_the_run() {
    let answers = vec![
        (0, JobOutcome::Completed(vec![vec![1], vec![2]])),
        (2, JobOutcome::Dropped("gone".to_string())),
        (4, JobOutcome::TimedOut),
    ];
    assert!(matches!(
        collect_ordered(5, answers, 120),
        Err(EmbedError::WorkerDropped { reason }) if reason == "gone"
    ));
}

#[test]
fn run_without_texts_has_no_vectors() {
    assert_eq!(collect_ordered(0, Vec::new(), 120).ok(), Some(Vec::new()));
}

#[test]
fn timeouts_accept_only_positive_whole_numbers() {
    assert_eq!(timeout_secs_from(None, 20), 20);
    assert_eq!(timeout_secs_from(Some("30"), 20), 30);
    assert_eq!(timeout_secs_from(Some("+5"), 20), 5);
    assert_eq!(timeout_secs_from(Some("007"), 20), 7);
    assert_eq!(timeout_secs_from(Some("0"), 20), 20);
    assert_eq!(timeout_secs_from(Some("000"), 120), 120);
    assert_eq!(timeout_secs_from(Some(""), 20), 20);
    assert_eq!(timeout_secs_from(Some("+"), 20), 20);
    assert_eq!(timeout_secs_from(Some("-3"), 20), 20);
    assert_eq!(timeout_secs_from(Some(" 5"), 20), 20);
    assert_eq!(timeout_secs_from(Some("5s"), 20), 20);
    assert_eq!(timeout_secs_from(Some("1.5"), 20), 20);
    assert_eq!(timeout_secs_from(Some("abc"), 120), 120);
    assert_eq!(timeout_secs_from(Some("18446744073709551615"), 20), u64::MAX);
    assert_eq!(timeout_secs_from(Some("18446744073709551616"), 20), 20);
    assert_eq!(timeout_secs_from(Some("99999999999999999999999"), 20), 20);
}

#[test]
fn single_text_takes_the_first_vector() {
    assert_eq!(single_embedding(vec![vec![1, 2], vec![3]]), Ok(vec![1, 2]));
    assert_eq!(single_embedding(Vec::new()), Err(NoEmbedding));
}

#[test]
fn job_that_cannot_be_queued_fails_the_run() {
    assert!(dispatch_result(2, SendOutcome::Queued).is_ok());
    assert!(matches!(
        dispatch_result(2, SendOutcome::Closed("channel closed".to_string())),
        Err(EmbedError::JobDispatch { worker: 2, reason }) if reason == "channel closed"
    ));
}

#[test]
fn pool_errors_read_in_words() {
    let failed = PoolInitError::WorkerFailed { worker: 3, reason: "no model".to_string() };
    assert_eq!(failed.message(), "embedding pool init failed: worker 3 not ready: no model");
    let timed_out = PoolInitError::TimedOut { worker: 0, timeout_secs: 20 };
    assert_eq!(timed_out.message(), "embedding pool init timed out after 20s waiting for worker 0");
}

#[test]
fn run_errors_read_in_words() {
    let error = EmbedError::JobDispatch { worker: 12, reason: "channel closed".to_string() };
    assert_eq!(
        error.message(),
        "failed to send embedding job to worker 12: channel closed. hint: worker may have failed to initialize; try ORT_DISABLE_COREML=1 or check initialization logs."
    );
    assert_eq!(
        EmbedError::JobTimeout { timeout_secs: 120 }.message(),
        "embedding batch timed out after 120s; worker may be stalled"
    );
    assert_eq!(
        EmbedError::JobTimeout { timeout_secs: u64::MAX }.message(),
        "embedding batch timed out after 18446744073709551615s; worker may be stalled"
    );
    assert_eq!(EmbedError::WorkerPanic { worker: 1 }.message(), "embedding worker 1 panicked during generate");
    assert_eq!(EmbedError::WorkerFailed { reason: "bad input".to_string() }.message(), "bad input");
    assert_eq!(
        EmbedError::WorkerDropped { reason: "channel closed".to_string() }.message(),
        "embedding worker dropped: channel closed"
    );
}

#[test]
fn written_timeouts_are_read_back() {
    for secs in [1u64, 9, 10, 99, 120, 1000, 86400, u64::MAX] {
        assert_eq!(timeout_secs_from(Some(&secs.to_string()), 20), secs);
    }
}

#[test]
fn single_job_errors_read_in_words() {
    let error = EmbedError::JobDispatch { worker: 1, reason: "channel closed".to_string() };
    assert_eq!(
        error.single_message(),
        "failed to send embedding job: channel closed. hint: worker may have failed to initialize; try setting ORT_DISABLE_COREML=1 to force CPU or check startup logs."
    );
    assert_eq!(
        EmbedError::JobTimeout { timeout_secs: 120 }.single_message(),
        "embedding job timed out after 120s; worker may be stalled"
    );
    assert_eq!(
        EmbedError::WorkerDropped { reason: "gone".to_string() }.single_message(),
        "embedding worker dropped: gone"
    );
    assert_eq!(EmbedError::WorkerFailed { reason: "bad".to_string() }.single_message(), "bad");
    assert_eq!(EmbedError::WorkerPanic { worker: 2 }.single_message(), "embedding worker 2 panicked during generate");
}

#[test]
fn workers_share_one_init_timeout() {
    assert_eq!(wait_left_millis(20, 0), 20_000);
    assert_eq!(wait_left_millis(20, 1), 19_999);
    assert_eq!(wait_left_millis(20, 19_999), 1);
    assert_eq!(wait_left_millis(20, 20_000), 0);
    assert_eq!(wait_left_millis(20, 90_000), 0);
    assert_eq!(wait_left_millis(0, 0), 0);
    assert_eq!(wait_left_millis(u64::MAX, 0), u64::MAX);
    assert_eq!(wait_left_millis(u64::MAX, u128::MAX), 0);
    assert_eq!(wait_left_millis(1 << 60, (1u128 << 60) * 1000 - 5), 5);
}

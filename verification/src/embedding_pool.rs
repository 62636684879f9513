//! The decisions of the embedding worker pool: when a pool may start, which
//! worker takes which batch, and how the answers go back into the order of
//! the texts. Threads, channels and clocks are the caller's; this module
//! tells the caller what to send and what each answer means.

use crate::text::{chars_of, copy_texts, decimal_text, push_number, push_str_chars, string_of, text_views};
use vstd::prelude::*;

verus! {

/// Seconds the pool waits for each worker to come up, unless set otherwise.
pub const DEFAULT_INIT_TIMEOUT_SECS: u64 = 20;

/// Seconds a job's answer may take, unless set otherwise.
pub const DEFAULT_JOB_TIMEOUT_SECS: u64 = 120;

/// Texts per job, unless set otherwise.
pub const DEFAULT_JOB_BATCH: usize = 2048;

/// Jobs a worker's queue holds before dispatch has to wait.
pub const WORKER_QUEUE_DEPTH: usize = 32;

/// Most workers a pool gets by default.
pub const MAX_DEFAULT_WORKERS: usize = 4;

/// What a worker told the pool while the pool waited for it to start.
pub enum ReadySignal {
    /// The worker has its model and takes jobs.
    Ready,
    /// The worker could not set up its model.
    Failed(String),
    /// Nothing came from the worker in time.
    TimedOut,
}

/// Why a pool did not start.
pub enum PoolInitError {
    /// A worker could not set up its model.
    WorkerFailed { worker: usize, reason: String },
    /// A worker did not signal in time.
    TimedOut { worker: usize, timeout_secs: u64 },
}

/// What came back for a job.
pub enum JobOutcome {
    /// The worker's vectors, one per text, each component by its bits.
    Completed(Vec<Vec<u32>>),
    /// The worker reported an error.
    Failed(String),
    /// The worker's model call broke off; the worker caught it.
    Panicked { worker: usize },
    /// The worker dropped the channel without an answer.
    Dropped(String),
    /// No answer came in time.
    TimedOut,
}

/// Why a run of embedding jobs failed.
pub enum EmbedError {
    /// A job could not be put on its worker's queue.
    JobDispatch { worker: usize, reason: String },
    /// A job's answer did not come in time.
    JobTimeout { timeout_secs: u64 },
    /// A worker's model call broke off.
    WorkerPanic { worker: usize },
    /// A worker reported an error.
    WorkerFailed { reason: String },
    /// A worker dropped the channel without an answer.
    WorkerDropped { reason: String },
}

impl PoolInitError {
    /// The error in words.
    pub open spec fn message_model(self) -> Seq<char> {
        match self {
            PoolInitError::WorkerFailed { worker, reason } => "embedding pool init failed: worker "@
                + decimal_text(worker as nat) + " not ready: "@ + reason@,
            PoolInitError::TimedOut { worker, timeout_secs } => "embedding pool init timed out after "@
                + decimal_text(timeout_secs as nat) + "s waiting for worker "@ + decimal_text(
                worker as nat,
            ),
        }
    }

    /// The error in words.
    pub fn message(&self) -> (text: String)
        ensures
            text@ == self.message_model(),
    {
        match self {
            PoolInitError::WorkerFailed { worker, reason } => {
                let mut out = chars_of("embedding pool init failed: worker ");
                push_number(&mut out, *worker as u64);
                push_str_chars(&mut out, " not ready: ");
                push_str_chars(&mut out, reason.as_str());
                string_of(&out)
            },
            PoolInitError::TimedOut { worker, timeout_secs } => {
                let mut out = chars_of("embedding pool init timed out after ");
                push_number(&mut out, *timeout_secs);
                push_str_chars(&mut out, "s waiting for worker ");
                push_number(&mut out, *worker as u64);
                string_of(&out)
            },
        }
    }
}

impl EmbedError {
    /// The error in words.
    pub open spec fn message_model(self) -> Seq<char> {
        match self {
            EmbedError::JobDispatch { worker, reason } => "failed to send embedding job to worker "@
                + decimal_text(worker as nat) + ": "@ + reason@
                + ". hint: worker may have failed to initialize; try ORT_DISABLE_COREML=1 or check initialization logs."@,
            EmbedError::JobTimeout { timeout_secs } => "embedding batch timed out after "@
                + decimal_text(timeout_secs as nat) + "s; worker may be stalled"@,
            EmbedError::WorkerPanic { worker } => "embedding worker "@ + decimal_text(worker as nat)
                + " panicked during generate"@,
            EmbedError::WorkerFailed { reason } => reason@,
            EmbedError::WorkerDropped { reason } => "embedding worker dropped: "@ + reason@,
        }
    }

    /// The error in words.
    pub fn message(&self) -> (text: String)
        ensures
            text@ == self.message_model(),
    {
        match self {
            EmbedError::JobDispatch { worker, reason } => {
                let mut out = chars_of("failed to send embedding job to worker ");
                push_number(&mut out, *worker as u64);
                push_str_chars(&mut out, ": ");
                push_str_chars(&mut out, reason.as_str());
                push_str_chars(
                    &mut out,
                    ". hint: worker may have failed to initialize; try ORT_DISABLE_COREML=1 or check initialization logs.",
                );
                string_of(&out)
            },
            EmbedError::JobTimeout { timeout_secs } => {
                let mut out = chars_of("embedding batch timed out after ");
                push_number(&mut out, *timeout_secs);
                push_str_chars(&mut out, "s; worker may be stalled");
                string_of(&out)
            },
            EmbedError::WorkerPanic { worker } => {
                let mut out = chars_of("embedding worker ");
                push_number(&mut out, *worker as u64);
                push_str_chars(&mut out, " panicked during generate");
                string_of(&out)
            },
            EmbedError::WorkerFailed { reason } => reason.clone(),
            EmbedError::WorkerDropped { reason } => {
                let mut out = chars_of("embedding worker dropped: ");
                push_str_chars(&mut out, reason.as_str());
                string_of(&out)
            },
        }
    }
}

impl EmbedError {
    /// The error in words, for a run of the single-item path.
    pub open spec fn single_message_model(self) -> Seq<char> {
        match self {
            EmbedError::JobDispatch { worker, reason } => "failed to send embedding job: "@ + reason@
                + ". hint: worker may have failed to initialize; try setting ORT_DISABLE_COREML=1 to force CPU or check startup logs."@,
            EmbedError::JobTimeout { timeout_secs } => "embedding job timed out after "@
                + decimal_text(timeout_secs as nat) + "s; worker may be stalled"@,
            EmbedError::WorkerPanic { worker } => "embedding worker "@ + decimal_text(worker as nat)
                + " panicked during generate"@,
            EmbedError::WorkerFailed { reason } => reason@,
            EmbedError::WorkerDropped { reason } => "embedding worker dropped: "@ + reason@,
        }
    }

    /// The error in words, for a run of the single-item path.
    pub fn single_message(&self) -> (text: String)
        ensures
            text@ == self.single_message_model(),
    {
        match self {
            EmbedError::JobDispatch { worker, reason } => {
                let mut out = chars_of("failed to send embedding job: ");
                push_str_chars(&mut out, reason.as_str());
                push_str_chars(
                    &mut out,
                    ". hint: worker may have failed to initialize; try setting ORT_DISABLE_COREML=1 to force CPU or check startup logs.",
                );
                string_of(&out)
            },
            EmbedError::JobTimeout { timeout_secs } => {
                let mut out = chars_of("embedding job timed out after ");
                push_number(&mut out, *timeout_secs);
                push_str_chars(&mut out, "s; worker may be stalled");
                string_of(&out)
            },
            EmbedError::WorkerPanic { worker } => {
                let mut out = chars_of("embedding worker ");
                push_number(&mut out, *worker as u64);
                push_str_chars(&mut out, " panicked during generate");
                string_of(&out)
            },
            EmbedError::WorkerFailed { reason } => reason.clone(),
            EmbedError::WorkerDropped { reason } => {
                let mut out = chars_of("embedding worker dropped: ");
                push_str_chars(&mut out, reason.as_str());
                string_of(&out)
            },
        }
    }
}

/// The milliseconds left to wait for the workers of a pool when
/// `elapsed_millis` have passed since the pool began to start: what is left
/// of the init timeout, and nothing once it has passed.
pub open spec fn wait_left_model(init_timeout_secs: u64, elapsed_millis: u128) -> int {
    if elapsed_millis >= init_timeout_secs * 1000 {
        0
    } else {
        init_timeout_secs * 1000 - elapsed_millis
    }
}

/// How long to wait for the next worker's signal, in milliseconds, when
/// `elapsed_millis` have passed since the pool began to start. The waits
/// for all workers together so end when the init timeout has passed since
/// the start. A wait that no 64 bits hold is cut to the longest they hold.
pub fn wait_left_millis(init_timeout_secs: u64, elapsed_millis: u128) -> (left: u64)
    ensures
        left == if wait_left_model(init_timeout_secs, elapsed_millis) > u64::MAX {
            u64::MAX as int
        } else {
            wait_left_model(init_timeout_secs, elapsed_millis)
        },
{
    let total: u128 = init_timeout_secs as u128 * 1000;
    if elapsed_millis >= total {
        return 0;
    }
    let left: u128 = total - elapsed_millis;
    if left > u64::MAX as u128 {
        u64::MAX
    } else {
        left as u64
    }
}

/// Whether a job got onto its worker's queue.
pub enum SendOutcome {
    /// The job is queued.
    Queued,
    /// The queue is closed: the worker is gone.
    Closed(String),
}

/// What a send means for the run: a job that could not be queued ends it.
pub fn dispatch_result(worker: usize, outcome: SendOutcome) -> (result: Result<(), EmbedError>)
    ensures
        result == match outcome {
            SendOutcome::Queued => Ok::<(), EmbedError>(()),
            SendOutcome::Closed(reason) => Err::<(), EmbedError>(
                EmbedError::JobDispatch { worker, reason },
            ),
        },
{
    match outcome {
        SendOutcome::Queued => Ok(()),
        SendOutcome::Closed(reason) => Err(EmbedError::JobDispatch { worker, reason }),
    }
}

/// A batch of texts for one worker.
pub struct EmbeddingJob {
    /// The texts to embed, in order.
    pub texts: Vec<String>,
    /// Batch size hint for the embedding backend.
    pub batch_size: Option<usize>,
    /// The worker that takes the job.
    pub worker: usize,
    /// Where the first text of the job stands among all texts.
    pub start: usize,
}

/// What an `EmbeddingJob` holds, as mathematical values.
pub struct JobView {
    pub texts: Seq<Seq<char>>,
    pub batch_size: Option<usize>,
    pub worker: nat,
    pub start: nat,
}

/// The views of a sequence of vectors.
pub open spec fn vector_views(vectors: Seq<Vec<u32>>) -> Seq<Seq<u32>> {
    Seq::new(vectors.len(), |i: int| vectors[i]@)
}

impl View for EmbeddingJob {
    type V = JobView;

    open spec fn view(&self) -> JobView {
        JobView {
            texts: text_views(self.texts@),
            batch_size: self.batch_size,
            worker: self.worker as nat,
            start: self.start as nat,
        }
    }
}

/// The views of a sequence of jobs.
pub open spec fn job_views(jobs: Seq<EmbeddingJob>) -> Seq<JobView> {
    Seq::new(jobs.len(), |i: int| jobs[i]@)
}

/// The number of workers of a pool asked to have `requested`: at least one.
pub open spec fn pool_size_model(requested: nat) -> nat {
    if requested == 0 {
        1
    } else {
        requested
    }
}

/// The default number of workers on a machine that can run `available`
/// threads at once: that many, but at least one and at most four; four
/// where the machine does not tell.
pub open spec fn default_pool_size_model(available: Option<usize>) -> nat {
    let cores: nat = match available {
        Some(n) => n as nat,
        None => MAX_DEFAULT_WORKERS as nat,
    };
    if cores > MAX_DEFAULT_WORKERS {
        MAX_DEFAULT_WORKERS as nat
    } else if cores == 0 {
        1
    } else {
        cores
    }
}

/// The default number of workers of a pool.
pub fn default_pool_size(available: Option<usize>) -> (size: usize)
    ensures
        size == default_pool_size_model(available),
        1 <= size <= MAX_DEFAULT_WORKERS,
{
    let cores = match available {
        Some(n) => n,
        None => MAX_DEFAULT_WORKERS,
    };
    if cores > MAX_DEFAULT_WORKERS {
        MAX_DEFAULT_WORKERS
    } else if cores == 0 {
        1
    } else {
        cores
    }
}

/// The signal of worker `worker`: the one at its place in `signals`, or a
/// timeout where there is none.
pub open spec fn signal_of(signals: Seq<ReadySignal>, worker: int) -> ReadySignal {
    if 0 <= worker < signals.len() {
        signals[worker]
    } else {
        ReadySignal::TimedOut
    }
}

/// Every one of the first `size` workers signalled that it is ready.
pub open spec fn all_ready(signals: Seq<ReadySignal>, size: nat) -> bool {
    forall|w: int| 0 <= w < size ==> #[trigger] signal_of(signals, w) is Ready
}

/// `worker` is the first worker that did not signal that it is ready.
pub open spec fn first_not_ready(signals: Seq<ReadySignal>, size: nat, worker: int) -> bool {
    &&& 0 <= worker < size
    &&& !(signal_of(signals, worker) is Ready)
    &&& forall|w: int| 0 <= w < worker ==> #[trigger] signal_of(signals, w) is Ready
}

/// The error for a worker that did not signal that it is ready.
pub open spec fn init_error(signal: ReadySignal, worker: usize, timeout_secs: u64) -> PoolInitError {
    match signal {
        ReadySignal::Failed(reason) => PoolInitError::WorkerFailed { worker, reason },
        _ => PoolInitError::TimedOut { worker, timeout_secs },
    }
}

/// The cursor after one more assignment: it wraps at the largest `usize`.
pub open spec fn next_cursor(cursor: nat) -> nat {
    if cursor >= usize::MAX {
        0
    } else {
        cursor + 1
    }
}

/// The cursor after `n` more assignments.
pub open spec fn cursor_after(cursor: nat, n: nat) -> nat
    decreases n,
{
    if n == 0 {
        cursor
    } else {
        next_cursor(cursor_after(cursor, (n - 1) as nat))
    }
}

/// The texts per job for a caller's wish: 2048 where there is none, and at
/// least one.
pub open spec fn job_batch_model(per_job_batch: Option<usize>) -> nat {
    match per_job_batch {
        Some(n) => if n == 0 {
            1
        } else {
            n as nat
        },
        None => DEFAULT_JOB_BATCH as nat,
    }
}

/// The jobs for the texts from `start` on: each takes the next `per_job`
/// texts, the last one what is left, and each goes to the worker that the
/// cursor points at, which then moves on by one.
pub open spec fn job_plan(
    texts: Seq<Seq<char>>,
    start: nat,
    per_job: nat,
    batch_size: Option<usize>,
    workers: nat,
    cursor: nat,
) -> Seq<JobView>
    decreases texts.len() - start,
{
    if start >= texts.len() || per_job == 0 || workers == 0 {
        Seq::empty()
    } else {
        let end = if start + per_job < texts.len() {
            start + per_job
        } else {
            texts.len()
        };
        seq![
            JobView {
                texts: texts.subrange(start as int, end as int),
                batch_size,
                worker: cursor % workers,
                start,
            },
        ] + job_plan(texts, end, per_job, batch_size, workers, next_cursor(cursor))
    }
}

/// A fixed set of embedding workers and the cursor that deals jobs out to
/// them in turn.
#[derive(Debug, Clone, Copy)]
pub struct EmbeddingPool {
    workers: usize,
    next: usize,
}

impl EmbeddingPool {
    #[verifier::type_invariant]
    spec fn has_a_worker(&self) -> bool {
        self.workers >= 1
    }

    /// The number of workers.
    pub closed spec fn size(&self) -> nat {
        self.workers as nat
    }

    /// The dispatch cursor: the number of assignments made so far, wrapped.
    pub closed spec fn cursor(&self) -> nat {
        self.next as nat
    }

    /// Builds the pool once its workers have been started and waited for.
    ///
    /// `signals[w]` is what worker `w` signalled; a worker without an entry
    /// counts as one that did not signal in time. The pool starts only if
    /// every worker is ready. Else the first worker that is not decides the
    /// error, and no pool is returned.
    pub fn new(pool_size: usize, signals: &Vec<ReadySignal>, init_timeout_secs: u64) -> (pool: Result<
        EmbeddingPool,
        PoolInitError,
    >)
        ensures
            pool is Ok <==> all_ready(signals@, pool_size_model(pool_size as nat)),
            pool matches Ok(p) ==> p.size() == pool_size_model(pool_size as nat) && p.cursor() == 0,
            pool matches Err(e) ==> exists|w: int|
                first_not_ready(signals@, pool_size_model(pool_size as nat), w) && e == init_error(
                    signal_of(signals@, w),
                    w as usize,
                    init_timeout_secs,
                ),
    {
        let size = if pool_size == 0 {
            1
        } else {
            pool_size
        };
        let mut worker: usize = 0;
        while worker < size
            invariant
                worker <= size,
                size == pool_size_model(pool_size as nat),
                forall|w: int| 0 <= w < worker ==> #[trigger] signal_of(signals@, w) is Ready,
            decreases size - worker,
        {
            if worker >= signals.len() {
                assert(first_not_ready(signals@, size as nat, worker as int));
                return Err(PoolInitError::TimedOut { worker, timeout_secs: init_timeout_secs });
            }
            match &signals[worker] {
                ReadySignal::Ready => {},
                ReadySignal::Failed(reason) => {
                    assert(first_not_ready(signals@, size as nat, worker as int));
                    return Err(PoolInitError::WorkerFailed { worker, reason: reason.clone() });
                },
                ReadySignal::TimedOut => {
                    assert(first_not_ready(signals@, size as nat, worker as int));
                    return Err(PoolInitError::TimedOut { worker, timeout_secs: init_timeout_secs });
                },
            }
            worker += 1;
        }
        Ok(EmbeddingPool { workers: size, next: 0 })
    }

    /// The number of workers.
    pub fn workers(&self) -> (n: usize)
        ensures
            n == self.size(),
            n >= 1,
    {
        proof {
            use_type_invariant(self);
        }
        self.workers
    }

    /// Picks the worker for the next job and moves the cursor on by one.
    pub fn next_worker(&mut self) -> (worker: usize)
        ensures
            worker == old(self).cursor() % old(self).size(),
            worker < final(self).size(),
            final(self).size() == old(self).size(),
            final(self).cursor() == next_cursor(old(self).cursor()),
    {
        proof {
            use_type_invariant(&*self);
        }
        let worker = self.next % self.workers;
        self.next = if self.next == usize::MAX {
            0
        } else {
            self.next + 1
        };
        worker
    }

    /// Makes the one job of the single-item path: all of `texts`, for the
    /// worker that the cursor points at.
    pub fn embed(&mut self, texts: Vec<String>, batch_size: Option<usize>) -> (job: EmbeddingJob)
        ensures
            job.texts == texts,
            job.batch_size == batch_size,
            job.start == 0,
            job.worker == old(self).cursor() % old(self).size(),
            job.worker < final(self).size(),
            final(self).size() == old(self).size(),
            final(self).cursor() == next_cursor(old(self).cursor()),
    {
        let worker = self.next_worker();
        EmbeddingJob { texts, batch_size, worker, start: 0 }
    }

    /// Slices `texts` into jobs of `per_job_batch` texts each and deals
    /// them out to the workers in turn, moving the cursor on by one for
    /// each job.
    pub fn plan_jobs(
        &mut self,
        texts: &Vec<String>,
        per_job_batch: Option<usize>,
        batch_size: Option<usize>,
    ) -> (jobs: Vec<EmbeddingJob>)
        ensures
            job_views(jobs@) == job_plan(
                text_views(texts@),
                0,
                job_batch_model(per_job_batch),
                batch_size,
                old(self).size(),
                old(self).cursor(),
            ),
            final(self).size() == old(self).size(),
            final(self).cursor() == cursor_after(old(self).cursor(), jobs.len() as nat),
    {
        let per_job: usize = match per_job_batch {
            Some(n) => if n == 0 {
                1
            } else {
                n
            },
            None => DEFAULT_JOB_BATCH,
        };
        let total = texts.len();
        let ghost all = text_views(texts@);
        let ghost size = self.size();
        let ghost cursor = self.cursor();
        let mut jobs: Vec<EmbeddingJob> = Vec::new();
        let mut start: usize = 0;
        proof {
            assert(job_views(jobs@) + job_plan(all, 0, per_job as nat, batch_size, size, cursor)
                =~= job_plan(all, 0, per_job as nat, batch_size, size, cursor));
        }
        while start < total
            invariant
                total == texts.len(),
                start <= total,
                per_job >= 1,
                all == text_views(texts@),
                self.size() == size,
                self.cursor() == cursor_after(cursor, jobs.len() as nat),
                job_views(jobs@) + job_plan(
                    all,
                    start as nat,
                    per_job as nat,
                    batch_size,
                    size,
                    self.cursor(),
                ) == job_plan(all, 0, per_job as nat, batch_size, size, cursor),
            decreases total - start,
        {
            let end: usize = if per_job < total - start {
                start + per_job
            } else {
                total
            };
            let ghost here = self.cursor();
            let ghost before = job_views(jobs@);
            let slice = copy_texts(texts, start, end);
            proof {
                use_type_invariant(&*self);
            }
            let worker = self.next_worker();
            let job = EmbeddingJob { texts: slice, batch_size, worker, start };
            proof {
                let rest = job_plan(all, end as nat, per_job as nat, batch_size, size, self.cursor());
                assert(job@.texts == all.subrange(start as int, end as int));
                assert(job_plan(all, start as nat, per_job as nat, batch_size, size, here) == seq![
                    job@,
                ] + rest);
                assert(job_views(jobs@.push(job)) =~= before.push(job@));
                assert(before.push(job@) + rest =~= before + (seq![job@] + rest));
            }
            jobs.push(job);
            start = end;
        }
        proof {
            assert(job_views(jobs@) + Seq::<JobView>::empty() =~= job_views(jobs@));
        }
        jobs
    }
}

/// What an outcome means for the run: the vectors, or the error that ends
/// the run.
pub open spec fn job_result_model(outcome: JobOutcome, timeout_secs: u64) -> Result<
    Vec<Vec<u32>>,
    EmbedError,
> {
    match outcome {
        JobOutcome::Completed(batch) => Ok(batch),
        JobOutcome::Failed(reason) => Err(EmbedError::WorkerFailed { reason }),
        JobOutcome::Panicked { worker } => Err(EmbedError::WorkerPanic { worker }),
        JobOutcome::Dropped(reason) => Err(EmbedError::WorkerDropped { reason }),
        JobOutcome::TimedOut => Err(EmbedError::JobTimeout { timeout_secs }),
    }
}

/// Turns what came back for a job into the job's result. This is the whole
/// of the single-item path after the job was sent.
pub fn job_result(outcome: JobOutcome, timeout_secs: u64) -> (result: Result<
    Vec<Vec<u32>>,
    EmbedError,
>)
    ensures
        result == job_result_model(outcome, timeout_secs),
{
    match outcome {
        JobOutcome::Completed(batch) => Ok(batch),
        JobOutcome::Failed(reason) => Err(EmbedError::WorkerFailed { reason }),
        JobOutcome::Panicked { worker } => Err(EmbedError::WorkerPanic { worker }),
        JobOutcome::Dropped(reason) => Err(EmbedError::WorkerDropped { reason }),
        JobOutcome::TimedOut => Err(EmbedError::JobTimeout { timeout_secs }),
    }
}

/// `total` slots, none filled yet.
pub open spec fn blank_slots(total: nat) -> Seq<Seq<u32>> {
    Seq::new(total, |i: int| Seq::<u32>::empty())
}

/// The slots with `batch` written from `start` on.
pub open spec fn placed(slots: Seq<Seq<u32>>, start: int, batch: Seq<Seq<u32>>) -> Seq<Seq<u32>> {
    Seq::new(
        slots.len(),
        |i: int|
            if start <= i < start + batch.len() {
                batch[i - start]
            } else {
                slots[i]
            },
    )
}

/// The output of a run while its answers come in: one slot per text, each
/// filled by the job that covers it.
pub struct Reassembly {
    vectors: Vec<Vec<u32>>,
}

impl Reassembly {
    /// The slots, filled or not.
    pub closed spec fn slots(&self) -> Seq<Seq<u32>> {
        vector_views(self.vectors@)
    }

    /// One empty slot for each of `total` texts.
    pub fn new(total: usize) -> (r: Reassembly)
        ensures
            r.slots() == blank_slots(total as nat),
    {
        let mut vectors: Vec<Vec<u32>> = Vec::new();
        let mut i: usize = 0;
        while i < total
            invariant
                i <= total,
                vectors@.len() == i,
                forall|k: int| 0 <= k < i ==> (#[trigger] vectors@[k])@ == Seq::<u32>::empty(),
            decreases total - i,
        {
            vectors.push(Vec::new());
            i += 1;
        }
        assert(vector_views(vectors@) =~= blank_slots(total as nat));
        Reassembly { vectors }
    }

    /// The number of slots.
    pub fn len(&self) -> (n: usize)
        ensures
            n == self.slots().len(),
    {
        self.vectors.len()
    }

    /// Writes the vectors of a job whose first text stands at `start`.
    ///
    /// The batch must fit: a worker that answers with more vectors than
    /// there are slots from `start` on has no place for them.
    pub fn place(&mut self, start: usize, batch: Vec<Vec<u32>>)
        requires
            start + batch.len() <= old(self).slots().len(),
        ensures
            final(self).slots() == placed(old(self).slots(), start as int, vector_views(batch@)),
    {
        let ghost before = self.slots();
        let ghost all = vector_views(batch@);
        let mut rest = batch;
        let mut left: usize = rest.len();
        let n = self.vectors.len();
        assert(self.slots() =~= Seq::new(
            before.len(),
            |i: int|
                if start + left <= i < start + all.len() {
                    all[i - start]
                } else {
                    before[i]
                },
        ));
        while left > 0
            invariant
                left == rest.len(),
                left <= all.len(),
                start + all.len() <= before.len(),
                before.len() == self.vectors@.len(),
                before.len() == n,
                forall|k: int| 0 <= k < left ==> (#[trigger] rest@[k])@ == all[k],
                self.slots() == Seq::new(
                    before.len(),
                    |i: int|
                        if start + left <= i < start + all.len() {
                            all[i - start]
                        } else {
                            before[i]
                        },
                ),
            decreases left,
        {
            let ghost had = self.slots();
            let vector = rest.pop().unwrap();
            left -= 1;
            self.vectors.set(start + left, vector);
            assert(self.slots() =~= Seq::new(
                before.len(),
                |i: int|
                    if start + left <= i < start + all.len() {
                        all[i - start]
                    } else {
                        before[i]
                    },
            )) by {
                assert forall|i: int| 0 <= i < before.len() implies self.slots()[i] == (if start
                    + left <= i < start + all.len() {
                    all[i - start]
                } else {
                    before[i]
                }) by {
                    if i != start + left {
                        assert(self.slots()[i] == had[i]);
                    }
                }
            }
        }
        assert(self.slots() =~= placed(before, start as int, all));
    }

    /// Takes in what came back for the job whose first text stands at
    /// `start`: its vectors go to their slots, anything else ends the run
    /// and leaves the slots as they are.
    pub fn accept(&mut self, start: usize, outcome: JobOutcome, timeout_secs: u64) -> (result:
        Result<(), EmbedError>)
        requires
            outcome matches JobOutcome::Completed(batch) ==> start + batch.len() <= old(
                self,
            ).slots().len(),
        ensures
            match job_result_model(outcome, timeout_secs) {
                Ok(batch) => result is Ok && final(self).slots() == placed(
                    old(self).slots(),
                    start as int,
                    vector_views(batch@),
                ),
                Err(e) => result == Err::<(), EmbedError>(e) && final(self).slots() == old(
                    self,
                ).slots(),
            },
    {
        match job_result(outcome, timeout_secs) {
            Ok(batch) => {
                self.place(start, batch);
                Ok(())
            },
            Err(e) => Err(e),
        }
    }

    /// The vectors, in the order of the texts.
    pub fn finish(self) -> (vectors: Vec<Vec<u32>>)
        ensures
            vector_views(vectors@) == self.slots(),
    {
        self.vectors
    }
}

/// What a worker answers for `texts` when it embeds each text by itself.
pub open spec fn embed_each(texts: Seq<Seq<char>>, embed: spec_fn(Seq<char>) -> Seq<u32>) -> Seq<
    Seq<u32>,
> {
    Seq::new(texts.len(), |i: int| embed(texts[i]))
}

/// The slots after each of `jobs` was answered, in dispatch order, by a
/// worker that embeds each text by itself.
pub open spec fn reassembled(
    slots: Seq<Seq<u32>>,
    jobs: Seq<JobView>,
    embed: spec_fn(Seq<char>) -> Seq<u32>,
) -> Seq<Seq<u32>>
    decreases jobs.len(),
{
    if jobs.len() == 0 {
        slots
    } else {
        placed(
            reassembled(slots, jobs.drop_last(), embed),
            jobs.last().start as int,
            embed_each(jobs.last().texts, embed),
        )
    }
}

/// Answering a first job and then the rest is answering all of them.
pub proof fn lemma_reassembled_front(
    slots: Seq<Seq<u32>>,
    first: JobView,
    rest: Seq<JobView>,
    embed: spec_fn(Seq<char>) -> Seq<u32>,
)
    ensures
        reassembled(slots, seq![first] + rest, embed) == reassembled(
            placed(slots, first.start as int, embed_each(first.texts, embed)),
            rest,
            embed,
        ),
    decreases rest.len(),
{
    let all = seq![first] + rest;
    if rest.len() == 0 {
        assert(all.drop_last() =~= Seq::<JobView>::empty());
        assert(all.last() == first);
        assert(reassembled(slots, all.drop_last(), embed) == slots);
    } else {
        assert(all.drop_last() =~= seq![first] + rest.drop_last());
        assert(all.last() == rest.last());
        lemma_reassembled_front(slots, first, rest.drop_last(), embed);
    }
}

/// Once the texts before `start` have their vectors, answering the jobs
/// planned from `start` on gives every text its vector.
pub proof fn lemma_plan_fills_slots(
    texts: Seq<Seq<char>>,
    start: nat,
    per_job: nat,
    batch_size: Option<usize>,
    workers: nat,
    cursor: nat,
    slots: Seq<Seq<u32>>,
    embed: spec_fn(Seq<char>) -> Seq<u32>,
)
    requires
        per_job > 0,
        workers > 0,
        start <= texts.len(),
        slots.len() == texts.len(),
        forall|i: int| 0 <= i < start ==> #[trigger] slots[i] == embed(texts[i]),
    ensures
        reassembled(slots, job_plan(texts, start, per_job, batch_size, workers, cursor), embed)
            == embed_each(texts, embed),
    decreases texts.len() - start,
{
    if start >= texts.len() {
        assert(slots =~= embed_each(texts, embed));
    } else {
        let end = if start + per_job < texts.len() {
            start + per_job
        } else {
            texts.len()
        };
        let first = JobView {
            texts: texts.subrange(start as int, end as int),
            batch_size,
            worker: cursor % workers,
            start,
        };
        let rest = job_plan(texts, end, per_job, batch_size, workers, next_cursor(cursor));
        let filled = placed(slots, start as int, embed_each(first.texts, embed));
        lemma_reassembled_front(slots, first, rest, embed);
        assert forall|i: int| 0 <= i < end implies #[trigger] filled[i] == embed(texts[i]) by {
            if i >= start {
                assert(first.texts[i - start] == texts[i]);
            }
        }
        lemma_plan_fills_slots(texts, end, per_job, batch_size, workers, next_cursor(cursor), filled, embed);
    }
}

/// Ordered reassembly keeps the order of the texts: whatever the batch
/// size, the number of workers and the cursor, once every job of the plan
/// is answered the slot of each text holds the vector that the text gets
/// when it is embedded by itself.
pub proof fn ordered_reassembly_preserves_order(
    texts: Seq<Seq<char>>,
    per_job: nat,
    batch_size: Option<usize>,
    workers: nat,
    cursor: nat,
    embed: spec_fn(Seq<char>) -> Seq<u32>,
)
    requires
        per_job > 0,
        workers > 0,
    ensures
        reassembled(
            blank_slots(texts.len()),
            job_plan(texts, 0, per_job, batch_size, workers, cursor),
            embed,
        ) == embed_each(texts, embed),
        reassembled(
            blank_slots(texts.len()),
            job_plan(texts, 0, per_job, batch_size, workers, cursor),
            embed,
        ).len() == texts.len(),
{
    lemma_plan_fills_slots(
        texts,
        0,
        per_job,
        batch_size,
        workers,
        cursor,
        blank_slots(texts.len()),
        embed,
    );
}

/// The jobs of a plan follow one another without a gap: the first starts
/// at `start`, each starts where the one before it ends, none is empty or
/// longer than `per_job`, and the last ends with the texts.
pub proof fn plan_tiles_the_texts(
    texts: Seq<Seq<char>>,
    start: nat,
    per_job: nat,
    batch_size: Option<usize>,
    workers: nat,
    cursor: nat,
)
    requires
        per_job > 0,
        workers > 0,
        start <= texts.len(),
    ensures
        ({
            let plan = job_plan(texts, start, per_job, batch_size, workers, cursor);
            &&& (plan.len() == 0 <==> start == texts.len())
            &&& plan.len() > 0 ==> plan[0].start == start && plan.last().start
                + plan.last().texts.len() == texts.len()
            &&& forall|j: int|
                0 <= j < plan.len() ==> 0 < (#[trigger] plan[j]).texts.len() <= per_job
                    && plan[j].worker < workers && plan[j].texts == texts.subrange(
                    plan[j].start as int,
                    (plan[j].start + plan[j].texts.len()) as int,
                )
            &&& forall|j: int|
                0 <= j < plan.len() - 1 ==> (#[trigger] plan[j]).start + plan[j].texts.len()
                    == plan[j + 1].start
        }),
    decreases texts.len() - start,
{
    if start < texts.len() {
        let end = if start + per_job < texts.len() {
            start + per_job
        } else {
            texts.len()
        };
        plan_tiles_the_texts(texts, end, per_job, batch_size, workers, next_cursor(cursor));
        let plan = job_plan(texts, start, per_job, batch_size, workers, cursor);
        let rest = job_plan(texts, end, per_job, batch_size, workers, next_cursor(cursor));
        assert(plan[0].texts.len() == end - start);
        assert(plan[0].worker < workers) by (nonlinear_arith)
            requires
                plan[0].worker == cursor % workers,
                workers > 0,
        ;
        assert forall|j: int| 1 <= j < plan.len() implies plan[j] == rest[j - 1] by {}
        assert forall|j: int| 0 <= j < plan.len() - 1 implies (#[trigger] plan[j]).start
            + plan[j].texts.len() == plan[j + 1].start by {
            if j >= 1 {
                assert(plan[j] == rest[j - 1]);
                assert(plan[j + 1] == rest[j]);
            } else {
                assert(plan[1] == rest[0]);
            }
        }
        assert forall|j: int| 0 <= j < plan.len() implies 0 < (#[trigger] plan[j]).texts.len()
            <= per_job && plan[j].worker < workers && plan[j].texts == texts.subrange(
            plan[j].start as int,
            (plan[j].start + plan[j].texts.len()) as int,
        ) by {
            if j >= 1 {
                assert(plan[j] == rest[j - 1]);
            }
        }
        if rest.len() > 0 {
            assert(plan.last() == rest.last());
        }
    }
}

/// The slots after the vectors of each answer in `answers` were written
/// where the answer's job starts.
pub open spec fn answered(slots: Seq<Seq<u32>>, answers: Seq<(usize, JobOutcome)>) -> Seq<Seq<u32>>
    decreases answers.len(),
{
    if answers.len() == 0 {
        slots
    } else {
        let before = answered(slots, answers.drop_last());
        match answers.last().1 {
            JobOutcome::Completed(batch) => placed(
                before,
                answers.last().0 as int,
                vector_views(batch@),
            ),
            _ => before,
        }
    }
}

/// Every answer brought vectors.
pub open spec fn all_completed(answers: Seq<(usize, JobOutcome)>) -> bool {
    forall|j: int| 0 <= j < answers.len() ==> (#[trigger] answers[j]).1 is Completed
}

/// Answer `j` is the first that brought no vectors.
pub open spec fn is_first_failure(answers: Seq<(usize, JobOutcome)>, j: int) -> bool {
    &&& 0 <= j < answers.len()
    &&& !(answers[j].1 is Completed)
    &&& forall|k: int| 0 <= k < j ==> (#[trigger] answers[k]).1 is Completed
}

/// The vectors of an answer have room in `total` slots.
pub open spec fn answer_fits(answer: (usize, JobOutcome), total: nat) -> bool {
    answer.1 matches JobOutcome::Completed(batch) ==> answer.0 + batch.len() <= total
}

/// Puts the answers of a run, each with the start of its job and in
/// dispatch order, back into the order of the texts. The first answer
/// without vectors fails the run, and nothing of it is returned.
pub fn collect_ordered(total: usize, answers: Vec<(usize, JobOutcome)>, timeout_secs: u64) -> (result:
    Result<Vec<Vec<u32>>, EmbedError>)
    requires
        forall|j: int| 0 <= j < answers@.len() ==> answer_fits(#[trigger] answers@[j], total as nat),
    ensures
        all_completed(answers@) ==> (result matches Ok(vectors) && vector_views(vectors@)
            == answered(blank_slots(total as nat), answers@)),
        forall|j: int|
            is_first_failure(answers@, j) ==> (job_result_model(
                answers@[j].1,
                timeout_secs,
            ) matches Err(e) && result == Err::<Vec<Vec<u32>>, EmbedError>(e)),
{
    let mut out = Reassembly::new(total);
    let ghost all = answers@;
    assert(all.take(0) =~= Seq::<(usize, JobOutcome)>::empty());
    for answer in it: answers.into_iter()
        invariant
            it.seq() == all,
            out.slots().len() == total,
            out.slots() == answered(blank_slots(total as nat), all.take(it.index())),
            forall|k: int| 0 <= k < it.index() ==> (#[trigger] all[k]).1 is Completed,
            forall|j: int| 0 <= j < all.len() ==> answer_fits(#[trigger] all[j], total as nat),
    {
        let ghost j = it.index();
        proof {
            assert(answer == all[j]);
            assert(all.take(j + 1).drop_last() =~= all.take(j));
            assert(all.take(j + 1).last() == answer);
            assert(answer_fits(all[j], total as nat));
        }
        let (start, outcome) = answer;
        match out.accept(start, outcome, timeout_secs) {
            Ok(()) => {},
            Err(e) => {
                proof {
                    assert(is_first_failure(all, j));
                    assert forall|i: int| is_first_failure(all, i) implies i == j by {
                        if i < j {
                            assert(all[i].1 is Completed);
                        } else if i > j {
                            assert(all[j].1 is Completed);
                        }
                    }
                    assert(!all_completed(all));
                }
                return Err(e);
            },
        }
    }
    proof {
        assert(all.take(all.len() as int) =~= all);
        assert forall|i: int| !is_first_failure(all, i) by {
            if 0 <= i < all.len() {
                assert(all[i].1 is Completed);
            }
        }
    }
    Ok(out.finish())
}

/// Answer `j` is what a worker that embeds each text by itself returns for
/// job `j`, with the start of that job.
pub open spec fn answers_job(
    answer: (usize, JobOutcome),
    job: JobView,
    embed: spec_fn(Seq<char>) -> Seq<u32>,
) -> bool {
    &&& answer.0 == job.start
    &&& answer.1 matches JobOutcome::Completed(batch)
    &&& vector_views(batch@) == embed_each(job.texts, embed)
}

/// Where every job got such an answer, the answers fill the slots as the
/// jobs say.
pub proof fn lemma_answers_fill_as_planned(
    slots: Seq<Seq<u32>>,
    jobs: Seq<JobView>,
    answers: Seq<(usize, JobOutcome)>,
    embed: spec_fn(Seq<char>) -> Seq<u32>,
)
    requires
        answers.len() == jobs.len(),
        forall|j: int| 0 <= j < jobs.len() ==> answers_job(#[trigger] answers[j], jobs[j], embed),
    ensures
        all_completed(answers),
        answered(slots, answers) == reassembled(slots, jobs, embed),
    decreases jobs.len(),
{
    assert forall|j: int| 0 <= j < answers.len() implies (#[trigger] answers[j]).1 is Completed by {
        assert(answers_job(answers[j], jobs[j], embed));
    }
    if jobs.len() > 0 {
        let n = jobs.len() - 1;
        assert forall|j: int| 0 <= j < n implies answers_job(
            #[trigger] answers.drop_last()[j],
            jobs.drop_last()[j],
            embed,
        ) by {
            assert(answers_job(answers[j], jobs[j], embed));
        }
        lemma_answers_fill_as_planned(slots, jobs.drop_last(), answers.drop_last(), embed);
        assert(answers_job(answers[n], jobs[n], embed));
    }
}

/// A run keeps the order of the texts. Let the jobs be planned for the
/// texts, whatever the batch size, the number of workers and the cursor,
/// and let each job be answered by a worker that embeds each text by
/// itself. Then collecting the answers gives as many vectors as there are
/// texts, and the vector at each place is the one of the text at that
/// place.
pub proof fn run_preserves_order(
    texts: Seq<Seq<char>>,
    per_job: nat,
    batch_size: Option<usize>,
    workers: nat,
    cursor: nat,
    answers: Seq<(usize, JobOutcome)>,
    embed: spec_fn(Seq<char>) -> Seq<u32>,
)
    requires
        per_job > 0,
        workers > 0,
        answers.len() == job_plan(texts, 0, per_job, batch_size, workers, cursor).len(),
        forall|j: int|
            0 <= j < answers.len() ==> answers_job(
                #[trigger] answers[j],
                job_plan(texts, 0, per_job, batch_size, workers, cursor)[j],
                embed,
            ),
    ensures
        all_completed(answers),
        answered(blank_slots(texts.len()), answers) == embed_each(texts, embed),
        answered(blank_slots(texts.len()), answers).len() == texts.len(),
        forall|i: int|
            0 <= i < texts.len() ==> #[trigger] answered(blank_slots(texts.len()), answers)[i]
                == embed(texts[i]),
{
    let jobs = job_plan(texts, 0, per_job, batch_size, workers, cursor);
    lemma_answers_fill_as_planned(blank_slots(texts.len()), jobs, answers, embed);
    ordered_reassembly_preserves_order(texts, per_job, batch_size, workers, cursor, embed);
}

/// Whether `c` is one of the digits `0` to `9`.
pub open spec fn is_digit(c: char) -> bool {
    0x30 <= c as u32 <= 0x39
}

/// Every character of `s` is a digit.
pub open spec fn all_digits(s: Seq<char>) -> bool {
    forall|i: int| 0 <= i < s.len() ==> is_digit(#[trigger] s[i])
}

/// The number that the digits `s` write in base ten.
pub open spec fn decimal_value(s: Seq<char>) -> nat
    decreases s.len(),
{
    if s.len() == 0 {
        0
    } else {
        decimal_value(s.drop_last()) * 10 + (s.last() as u32 - 0x30) as nat
    }
}

/// `s` without a plus sign at its start.
pub open spec fn unsigned_part(s: Seq<char>) -> Seq<char> {
    if s.len() > 0 && s[0] == '+' {
        s.drop_first()
    } else {
        s
    }
}

/// The positive number of seconds that `s` writes: digits alone, after an
/// optional plus sign, for a number above zero that fits in 64 bits.
pub open spec fn positive_seconds(s: Seq<char>) -> Option<u64> {
    let digits = unsigned_part(s);
    if digits.len() > 0 && all_digits(digits) && 0 < decimal_value(digits) <= u64::MAX {
        Some(decimal_value(digits) as u64)
    } else {
        None
    }
}

/// The timeout for a setting: what the setting writes where it writes a
/// positive number of seconds, else the default.
pub open spec fn timeout_model(setting: Option<Seq<char>>, default_secs: u64) -> u64 {
    match setting {
        Some(s) => match positive_seconds(s) {
            Some(secs) => secs,
            None => default_secs,
        },
        None => default_secs,
    }
}

/// More digits never write a smaller number.
pub proof fn lemma_decimal_value_grows(s: Seq<char>, n: int)
    requires
        0 <= n <= s.len(),
        all_digits(s),
    ensures
        decimal_value(s.take(n)) <= decimal_value(s),
    decreases s.len() - n,
{
    if n == s.len() {
        assert(s.take(n) =~= s);
    } else {
        lemma_decimal_value_grows(s, n + 1);
        assert(s.take(n + 1).drop_last() =~= s.take(n));
        assert(is_digit(s[n]));
    }
}

/// A number written in base ten is digits alone, and they write it.
pub proof fn lemma_decimal_text_reads_back(n: nat)
    ensures
        decimal_text(n).len() > 0,
        all_digits(decimal_text(n)),
        decimal_value(decimal_text(n)) == n,
    decreases n,
{
    if n < 10 {
        let text = decimal_text(n);
        assert(text.drop_last() =~= Seq::<char>::empty());
        assert(decimal_value(text.drop_last()) == 0);
    } else {
        lemma_decimal_text_reads_back(n / 10);
        let text = decimal_text(n);
        assert(text.drop_last() =~= decimal_text(n / 10));
        assert forall|i: int| 0 <= i < text.len() implies is_digit(#[trigger] text[i]) by {
            if i < text.len() - 1 {
                assert(text[i] == decimal_text(n / 10)[i]);
            }
        }
    }
}

/// A positive number of seconds, written out, is accepted as a setting and
/// read as itself.
pub proof fn written_seconds_are_accepted(secs: u64, default_secs: u64)
    requires
        secs > 0,
    ensures
        timeout_model(Some(decimal_text(secs as nat)), default_secs) == secs,
{
    lemma_decimal_text_reads_back(secs as nat);
    let text = decimal_text(secs as nat);
    assert(is_digit(text[0]));
    assert(unsigned_part(text) == text);
}

/// The timeout in seconds for a setting read from the environment: the
/// setting where it is a positive whole number, `default_secs` where it is
/// missing or anything else.
pub fn timeout_secs_from(setting: Option<&str>, default_secs: u64) -> (secs: u64)
    ensures
        secs == timeout_model(
            match setting {
                Some(s) => Some(s@),
                None => None,
            },
            default_secs,
        ),
{
    let text = match setting {
        Some(s) => s,
        None => {
            return default_secs;
        },
    };
    let chars = chars_of(text);
    let from: usize = if chars.len() > 0 && chars[0] == '+' {
        1
    } else {
        0
    };
    let ghost digits = unsigned_part(chars@);
    assert(digits =~= chars@.skip(from as int));
    if from == chars.len() {
        return default_secs;
    }
    let mut value: u64 = 0;
    let mut i: usize = from;
    assert(digits.take(0) =~= Seq::<char>::empty());
    while i < chars.len()
        invariant
            from <= i <= chars.len(),
            setting == Some(text),
            chars@ == text@,
            digits == unsigned_part(chars@),
            digits == chars@.skip(from as int),
            forall|k: int| 0 <= k < i - from ==> is_digit(#[trigger] digits[k]),
            value == decimal_value(digits.take(i - from)),
        decreases chars.len() - i,
    {
        let c = chars[i];
        let code: u32 = c as u32;
        assert(digits[i - from] == c);
        if code < 0x30 || code > 0x39 {
            assert(!is_digit(digits[i - from]));
            return default_secs;
        }
        let digit: u64 = (code - 0x30) as u64;
        proof {
            assert(digits.take(i - from + 1).drop_last() =~= digits.take(i - from));
            assert(digits.take(i - from + 1).last() == c);
        }
        if value > (u64::MAX - digit) / 10 {
            proof {
                // the number outgrows 64 bits here, and more digits only add to it
                if all_digits(digits) {
                    lemma_decimal_value_grows(digits, i - from + 1);
                }
            }
            return default_secs;
        }
        value = value * 10 + digit;
        i += 1;
    }
    assert(digits.take(digits.len() as int) =~= digits);
    if value == 0 {
        default_secs
    } else {
        value
    }
}

/// An embedding backend answered a single text with no vector.
#[derive(Debug, Clone, Copy, PartialEq, Eq, Structural)]
pub struct NoEmbedding;

/// The vector of a single text from the answer to a job that held only
/// that text: the first vector, and a failure where there is none.
pub fn single_embedding(vectors: Vec<Vec<u32>>) -> (result: Result<Vec<u32>, NoEmbedding>)
    ensures
        vectors@.len() == 0 ==> result is Err,
        vectors@.len() > 0 ==> result == Ok::<Vec<u32>, NoEmbedding>(vectors@[0]),
{
    let mut rest = vectors;
    if rest.len() == 0 {
        return Err(NoEmbedding);
    }
    rest.truncate(1);
    Ok(rest.pop().unwrap())
}

} // verus!

//! Cached artifacts: stable identifiers and the protocol that fills the
//! cache atomically.

use vstd::prelude::*;
use vstd::utf8::encode_utf8;
use sha2::Digest;
use crate::error::LazyGetError;
use crate::lines::hex_digit;
use crate::text::{owned, push_char};

verus! {

/// The SHA-256 digest of `data`.
pub uninterp spec fn sha256(data: Seq<u8>) -> Seq<u8>;

/// `sha2::Sha256::digest`: the SHA-256 digest of `data`, 32 bytes long.
#[verifier::external_body]
fn sha256_digest(data: &[u8]) -> (r: Vec<u8>)
    ensures
        r@ == sha256(data@),
        r@.len() == 32,
{
    sha2::Sha256::digest(data).to_vec()
}

/// Each byte of `bytes` as two lower-case hexadecimal digits, high digit first.
pub open spec fn hex_lower(bytes: Seq<u8>) -> Seq<char>
    decreases bytes.len(),
{
    if bytes.len() == 0 {
        seq![]
    } else {
        hex_lower(bytes.drop_last()) + seq![
            hex_digit((bytes.last() / 16) as int),
            hex_digit((bytes.last() % 16) as int),
        ]
    }
}

/// `hex::encode`: `data` in lower-case hexadecimal.
#[verifier::external_body]
fn hex_encode(data: &[u8]) -> (r: String)
    ensures
        r@ == hex_lower(data@),
{
    hex::encode(data)
}

proof fn lemma_hex_lower_len(bytes: Seq<u8>)
    ensures
        hex_lower(bytes).len() == 2 * bytes.len(),
    decreases bytes.len(),
{
    if bytes.len() > 0 {
        lemma_hex_lower_len(bytes.drop_last());
    }
}

/// The bytes hashed for an artifact: the URL, then `:` and the tag when
/// there is one, all in UTF-8.
pub open spec fn id_input(url: Seq<char>, tag: Option<Seq<char>>) -> Seq<u8> {
    match tag {
        Some(t) => encode_utf8(url) + seq![58u8] + encode_utf8(t),
        None => encode_utf8(url),
    }
}

/// The identifier text of a digest: its lower-case hexadecimal form.
pub fn id_from_digest(digest: &[u8]) -> (r: String)
    ensures
        r@ == hex_lower(digest@),
        r@.len() == 2 * digest@.len(),
{
    proof {
        lemma_hex_lower_len(digest@);
    }
    hex_encode(digest)
}

/// A stable identifier for an artifact at `url`, optionally pinned by `tag`
/// (such as a commit): the SHA-256 of the URL (and `:tag`), as 64
/// lower-case hexadecimal digits.
pub fn make_id(url: &str, tag: Option<&str>) -> (r: String)
    ensures
        r@ == hex_lower(sha256(id_input(url@, match tag {
            Some(t) => Some(t@),
            None => None,
        }))),
        r@.len() == 64,
{
    let mut data: Vec<u8> = Vec::new();
    let u = url.as_bytes();
    let mut i: usize = 0;
    while i < u.len()
        invariant
            i <= u@.len(),
            data@ == u@.take(i as int),
        decreases u@.len() - i,
    {
        data.push(u[i]);
        i += 1;
        assert(data@ =~= u@.take(i as int));
    }
    assert(u@.take(u@.len() as int) =~= u@);
    match tag {
        Some(t) => {
            data.push(58u8);
            let b = t.as_bytes();
            let ghost start = data@;
            let mut j: usize = 0;
            while j < b.len()
                invariant
                    j <= b@.len(),
                    data@ == start + b@.take(j as int),
                decreases b@.len() - j,
            {
                data.push(b[j]);
                j += 1;
                assert(data@ =~= start + b@.take(j as int));
            }
            assert(b@.take(b@.len() as int) =~= b@);
            assert(data@ =~= encode_utf8(url@) + seq![58u8] + encode_utf8(t@));
        },
        None => {
            assert(data@ =~= encode_utf8(url@));
        },
    }
    assert(data@ == id_input(url@, match tag {
        Some(t) => Some(t@),
        None => None,
    }));
    let digest = sha256_digest(data.as_slice());
    id_from_digest(digest.as_slice())
}

/// The name of the directory an artifact is fetched into before it is
/// moved into place: `.{id}-tmp`.
pub open spec fn temp_name(id: Seq<char>) -> Seq<char> {
    seq!['.'] + id + seq!['-', 't', 'm', 'p']
}

/// The temporary directory name for artifact `id`.
pub fn temp_dir_name(id: &str) -> (r: String)
    ensures
        r@ == temp_name(id@),
{
    let mut r = owned(".");
    r.append(id);
    r.append("-tmp");
    proof {
        assert("."@ == seq!['.']) by {
            reveal_strlit(".");
        }
        assert("-tmp"@ == seq!['-', 't', 'm', 'p']) by {
            reveal_strlit("-tmp");
        }
    }
    assert(r@ =~= temp_name(id@));
    r
}

/// The next operation of a fetch (or refetch) of an artifact into
/// `cache_dir/id`, with temporary directory `cache_dir/.{id}-tmp`.
pub enum FetchStep {
    /// Refetch only: check whether the artifact is already cached.
    CheckCached,
    /// Refetch only: remove the cached artifact.
    RemoveCached,
    /// Check whether the artifact is cached.
    CheckTarget,
    /// Create the cache directory (and its parents).
    CreateCacheDir,
    /// Check whether a temporary directory is left over.
    CheckTemp,
    /// Remove the left-over temporary directory.
    RemoveTemp,
    /// Create the temporary directory.
    CreateTemp,
    /// Run the fetch operation into the temporary directory.
    RunFetch,
    /// Rename the temporary directory to the artifact's directory.
    Commit,
    /// Remove the temporary directory after the fetch failed (whatever
    /// the removal gives), then report the fetch's error.
    Discard(String),
    /// Finished: the artifact is in place.
    Done,
    /// Finished with an error.
    Failed(LazyGetError),
}

/// What an operation of a fetch gave.
pub enum FetchOutcome {
    /// A check found the directory (`true`) or not.
    Exists(bool),
    /// An operation succeeded, or failed with the given message.
    Finished(Result<(), String>),
}

/// The step that follows `step` when its operation gave `outcome`.
pub open spec fn next_step_model(step: FetchStep, outcome: FetchOutcome) -> FetchStep {
    match (step, outcome) {
        (FetchStep::CheckCached, FetchOutcome::Exists(true)) => FetchStep::RemoveCached,
        (FetchStep::CheckCached, FetchOutcome::Exists(false)) => FetchStep::CheckTarget,
        (FetchStep::RemoveCached, FetchOutcome::Finished(Ok(()))) => FetchStep::CheckTarget,
        (FetchStep::RemoveCached, FetchOutcome::Finished(Err(e))) => FetchStep::Failed(LazyGetError::Io(e)),
        (FetchStep::CheckTarget, FetchOutcome::Exists(true)) => FetchStep::Done,
        (FetchStep::CheckTarget, FetchOutcome::Exists(false)) => FetchStep::CreateCacheDir,
        (FetchStep::CreateCacheDir, FetchOutcome::Finished(Ok(()))) => FetchStep::CheckTemp,
        (FetchStep::CreateCacheDir, FetchOutcome::Finished(Err(e))) => FetchStep::Failed(LazyGetError::CacheCreate(e)),
        (FetchStep::CheckTemp, FetchOutcome::Exists(true)) => FetchStep::RemoveTemp,
        (FetchStep::CheckTemp, FetchOutcome::Exists(false)) => FetchStep::CreateTemp,
        (FetchStep::RemoveTemp, FetchOutcome::Finished(Ok(()))) => FetchStep::CreateTemp,
        (FetchStep::RemoveTemp, FetchOutcome::Finished(Err(e))) => FetchStep::Failed(LazyGetError::Io(e)),
        (FetchStep::CreateTemp, FetchOutcome::Finished(Ok(()))) => FetchStep::RunFetch,
        (FetchStep::CreateTemp, FetchOutcome::Finished(Err(e))) => FetchStep::Failed(LazyGetError::Io(e)),
        (FetchStep::RunFetch, FetchOutcome::Finished(Ok(()))) => FetchStep::Commit,
        (FetchStep::RunFetch, FetchOutcome::Finished(Err(e))) => FetchStep::Discard(e),
        (FetchStep::Commit, FetchOutcome::Finished(Ok(()))) => FetchStep::Done,
        (FetchStep::Commit, FetchOutcome::Finished(Err(e))) => FetchStep::Failed(LazyGetError::AtomicRename(e)),
        (FetchStep::Discard(e), _) => FetchStep::Failed(LazyGetError::Fetch(e)),
        (FetchStep::Done, _) => FetchStep::Done,
        (FetchStep::Failed(e), _) => FetchStep::Failed(e),
        (s, _) => s,
    }
}

/// How far a fetch has got; every step that does something moves it on.
pub open spec fn progress(step: FetchStep) -> nat {
    match step {
        FetchStep::CheckCached => 0,
        FetchStep::RemoveCached => 1,
        FetchStep::CheckTarget => 2,
        FetchStep::CreateCacheDir => 3,
        FetchStep::CheckTemp => 4,
        FetchStep::RemoveTemp => 5,
        FetchStep::CreateTemp => 6,
        FetchStep::RunFetch => 7,
        FetchStep::Commit => 8,
        FetchStep::Discard(_) => 8,
        FetchStep::Done => 9,
        FetchStep::Failed(_) => 9,
    }
}

/// The outcome fits the operation: checks give `Exists`, other operations
/// give `Finished`.
pub open spec fn outcome_fits(step: FetchStep, outcome: FetchOutcome) -> bool {
    match step {
        FetchStep::CheckCached | FetchStep::CheckTarget | FetchStep::CheckTemp => outcome is Exists,
        FetchStep::Done | FetchStep::Failed(_) | FetchStep::Discard(_) => true,
        _ => outcome is Finished,
    }
}

/// The first step of `fetch`: look for the cached artifact.
pub fn fetch_start() -> (r: FetchStep)
    ensures
        r == FetchStep::CheckTarget,
{
    FetchStep::CheckTarget
}

/// The first step of `refetch`: look for a cached artifact to remove.
pub fn refetch_start() -> (r: FetchStep)
    ensures
        r == FetchStep::CheckCached,
{
    FetchStep::CheckCached
}

/// The step that follows `step` once its operation gave `outcome`.
pub fn next_step(step: FetchStep, outcome: FetchOutcome) -> (r: FetchStep)
    ensures
        r == next_step_model(step, outcome),
{
    match (step, outcome) {
        (FetchStep::CheckCached, FetchOutcome::Exists(true)) => FetchStep::RemoveCached,
        (FetchStep::CheckCached, FetchOutcome::Exists(false)) => FetchStep::CheckTarget,
        (FetchStep::RemoveCached, FetchOutcome::Finished(Ok(()))) => FetchStep::CheckTarget,
        (FetchStep::RemoveCached, FetchOutcome::Finished(Err(e))) => FetchStep::Failed(LazyGetError::Io(e)),
        (FetchStep::CheckTarget, FetchOutcome::Exists(true)) => FetchStep::Done,
        (FetchStep::CheckTarget, FetchOutcome::Exists(false)) => FetchStep::CreateCacheDir,
        (FetchStep::CreateCacheDir, FetchOutcome::Finished(Ok(()))) => FetchStep::CheckTemp,
        (FetchStep::CreateCacheDir, FetchOutcome::Finished(Err(e))) => FetchStep::Failed(LazyGetError::CacheCreate(e)),
        (FetchStep::CheckTemp, FetchOutcome::Exists(true)) => FetchStep::RemoveTemp,
        (FetchStep::CheckTemp, FetchOutcome::Exists(false)) => FetchStep::CreateTemp,
        (FetchStep::RemoveTemp, FetchOutcome::Finished(Ok(()))) => FetchStep::CreateTemp,
        (FetchStep::RemoveTemp, FetchOutcome::Finished(Err(e))) => FetchStep::Failed(LazyGetError::Io(e)),
        (FetchStep::CreateTemp, FetchOutcome::Finished(Ok(()))) => FetchStep::RunFetch,
        (FetchStep::CreateTemp, FetchOutcome::Finished(Err(e))) => FetchStep::Failed(LazyGetError::Io(e)),
        (FetchStep::RunFetch, FetchOutcome::Finished(Ok(()))) => FetchStep::Commit,
        (FetchStep::RunFetch, FetchOutcome::Finished(Err(e))) => FetchStep::Discard(e),
        (FetchStep::Commit, FetchOutcome::Finished(Ok(()))) => FetchStep::Done,
        (FetchStep::Commit, FetchOutcome::Finished(Err(e))) => FetchStep::Failed(LazyGetError::AtomicRename(e)),
        (FetchStep::Discard(e), _) => FetchStep::Failed(LazyGetError::Fetch(e)),
        (FetchStep::Done, _) => FetchStep::Done,
        (FetchStep::Failed(e), _) => FetchStep::Failed(e),
        (s, _) => s,
    }
}

/// Every operation, given an outcome that fits it, moves the fetch
/// forward; so each operation (running the fetch among them) happens at
/// most once, and a fetch ends after a bounded number of operations.
pub proof fn lemma_fetch_progresses(step: FetchStep, outcome: FetchOutcome)
    requires
        !(step is Done),
        !(step is Failed),
        outcome_fits(step, outcome),
    ensures
        progress(next_step_model(step, outcome)) > progress(step),
{
}

/// A cached artifact is returned as it is: the fetch operation is not run.
pub proof fn lemma_cached_not_refetched()
    ensures
        next_step_model(FetchStep::CheckTarget, FetchOutcome::Exists(true)) == FetchStep::Done,
{
}

/// A failed fetch never puts its result in place: the temporary directory
/// is discarded and the fetch's error reported.
pub proof fn lemma_failed_fetch_discarded(e: String, o: FetchOutcome)
    ensures
        next_step_model(FetchStep::RunFetch, FetchOutcome::Finished(Err(e))) == FetchStep::Discard(e),
        next_step_model(FetchStep::Discard(e), o) == FetchStep::Failed(LazyGetError::Fetch(e)),
{
}

/// The steps a fetch goes through from `step` when its operations give
/// `outcomes` in turn.
pub open spec fn fetch_run(step: FetchStep, outcomes: Seq<FetchOutcome>) -> Seq<FetchStep>
    decreases outcomes.len(),
{
    if outcomes.len() == 0 {
        seq![step]
    } else {
        seq![step] + fetch_run(next_step_model(step, outcomes[0]), outcomes.drop_first())
    }
}

/// Each outcome fits the operation it answers.
pub open spec fn run_fits(step: FetchStep, outcomes: Seq<FetchOutcome>) -> bool
    decreases outcomes.len(),
{
    outcomes.len() == 0 || (outcome_fits(step, outcomes[0]) && run_fits(
        next_step_model(step, outcomes[0]),
        outcomes.drop_first(),
    ))
}

proof fn lemma_run_progress(step: FetchStep, outcomes: Seq<FetchOutcome>)
    requires
        run_fits(step, outcomes),
    ensures
        fetch_run(step, outcomes).len() == outcomes.len() + 1,
        fetch_run(step, outcomes)[0] == step,
        forall|k: int| 0 < k < fetch_run(step, outcomes).len() ==>
            progress(#[trigger] fetch_run(step, outcomes)[k]) >= progress(step),
        !(step is Done) && !(step is Failed) ==> forall|k: int| 0 < k < fetch_run(step, outcomes).len() ==>
            progress(#[trigger] fetch_run(step, outcomes)[k]) > progress(step),
    decreases outcomes.len(),
{
    if outcomes.len() > 0 {
        let next = next_step_model(step, outcomes[0]);
        let rest = outcomes.drop_first();
        lemma_run_progress(next, rest);
        if !(step is Done) && !(step is Failed) {
            lemma_fetch_progresses(step, outcomes[0]);
        }
        let r = fetch_run(step, outcomes);
        assert forall|k: int| 0 < k < r.len() implies progress(#[trigger] r[k]) >= progress(next) by {
            assert(r[k] == fetch_run(next, rest)[k - 1]);
        }
    }
}

/// However the operations turn out, a fetch runs the fetch operation at
/// most once.
pub proof fn lemma_fetch_runs_at_most_once(step: FetchStep, outcomes: Seq<FetchOutcome>)
    requires
        run_fits(step, outcomes),
    ensures
        forall|i: int, j: int| 0 <= i < j < fetch_run(step, outcomes).len()
            && (#[trigger] fetch_run(step, outcomes)[i]) is RunFetch ==> !((#[trigger] fetch_run(step, outcomes)[j]) is RunFetch),
    decreases outcomes.len(),
{
    lemma_run_progress(step, outcomes);
    if outcomes.len() > 0 {
        let next = next_step_model(step, outcomes[0]);
        let rest = outcomes.drop_first();
        lemma_fetch_runs_at_most_once(next, rest);
        let r = fetch_run(step, outcomes);
        assert forall|i: int, j: int| 0 <= i < j < r.len() && (#[trigger] r[i]) is RunFetch implies !((#[trigger] r[j]) is RunFetch) by {
            if i == 0 {
                assert(progress(r[j]) > progress(step));
            } else {
                assert(r[i] == fetch_run(next, rest)[i - 1]);
                assert(r[j] == fetch_run(next, rest)[j - 1]);
            }
        }
    }
}

/// A fetch that has failed stays failed, whatever follows.
proof fn lemma_failed_run_never_done(step: FetchStep, outcomes: Seq<FetchOutcome>)
    requires
        step is Failed || step is Discard,
    ensures
        !(fetch_run(step, outcomes).last() is Done),
    decreases outcomes.len(),
{
    if outcomes.len() > 0 {
        let next = next_step_model(step, outcomes[0]);
        assert(next is Failed);
        lemma_failed_run_never_done(next, outcomes.drop_first());
        assert(fetch_run(step, outcomes).last() == fetch_run(next, outcomes.drop_first()).last());
    }
}

/// A fetch that ends with its artifact in place either found it cached when
/// it looked for it, or ran the fetch operation, which succeeded, and then
/// committed the result, which succeeded too.
pub open spec fn ended_in_place(run: Seq<FetchStep>, outcomes: Seq<FetchOutcome>) -> bool {
    ||| exists|k: int| 0 <= k < outcomes.len() && (#[trigger] run[k]) is CheckTarget
            && outcomes[k] == FetchOutcome::Exists(true)
    ||| exists|k: int| 0 <= k && k + 1 < outcomes.len() && (#[trigger] run[k]) is RunFetch
            && outcomes[k] == FetchOutcome::Finished(Ok(())) && run[k + 1] is Commit
            && outcomes[k + 1] == FetchOutcome::Finished(Ok(()))
}

proof fn lemma_run_len(step: FetchStep, outcomes: Seq<FetchOutcome>)
    ensures
        fetch_run(step, outcomes).len() == outcomes.len() + 1,
    decreases outcomes.len(),
{
    if outcomes.len() > 0 {
        lemma_run_len(next_step_model(step, outcomes[0]), outcomes.drop_first());
    }
}

proof fn lemma_shift_in_place(step: FetchStep, outcomes: Seq<FetchOutcome>)
    requires
        outcomes.len() > 0,
        ended_in_place(fetch_run(next_step_model(step, outcomes[0]), outcomes.drop_first()), outcomes.drop_first()),
    ensures
        ended_in_place(fetch_run(step, outcomes), outcomes),
{
    let rest = outcomes.drop_first();
    let tail = fetch_run(next_step_model(step, outcomes[0]), rest);
    let run = fetch_run(step, outcomes);
    assert(run == seq![step] + tail);
    lemma_run_len(next_step_model(step, outcomes[0]), rest);
    if exists|k: int| 0 <= k < rest.len() && (#[trigger] tail[k]) is CheckTarget && rest[k] == FetchOutcome::Exists(true) {
        let k = choose|k: int| 0 <= k < rest.len() && (#[trigger] tail[k]) is CheckTarget && rest[k] == FetchOutcome::Exists(true);
        assert(run[k + 1] == tail[k]);
        assert(outcomes[k + 1] == rest[k]);
    } else {
        let k = choose|k: int| 0 <= k && k + 1 < rest.len() && (#[trigger] tail[k]) is RunFetch
            && rest[k] == FetchOutcome::Finished(Ok(())) && tail[k + 1] is Commit
            && rest[k + 1] == FetchOutcome::Finished(Ok(()));
        assert(run[k + 1] == tail[k]);
        assert(run[k + 2] == tail[k + 1]);
        assert(outcomes[k + 1] == rest[k]);
        assert(outcomes[k + 2] == rest[k + 1]);
    }
}

/// A fetch or refetch, from any step before the fetch operation, reaches
/// `Done` only by finding the artifact cached (for a refetch: after it was
/// removed, or when there was none) or by running the fetch operation and
/// committing its result; never by skipping both.
pub proof fn lemma_done_only_cached_or_fetched(step: FetchStep, outcomes: Seq<FetchOutcome>)
    requires
        progress(step) <= 7,
        !(step is Done),
        !(step is Failed),
        run_fits(step, outcomes),
        fetch_run(step, outcomes).last() is Done,
    ensures
        ended_in_place(fetch_run(step, outcomes), outcomes),
    decreases outcomes.len(),
{
    let run = fetch_run(step, outcomes);
    if outcomes.len() == 0 {
        assert(run == seq![step]);
        assert(false);
    } else {
        let next = next_step_model(step, outcomes[0]);
        let rest = outcomes.drop_first();
        let tail = fetch_run(next, rest);
        assert(run == seq![step] + tail);
        assert(run.last() == tail.last());
        assert(run[0] == step);
        if step is CheckTarget && outcomes[0] == FetchOutcome::Exists(true) {
            assert(ended_in_place(run, outcomes));
        } else if step is RunFetch {
            if outcomes[0] == FetchOutcome::Finished(Ok(())) {
                assert(next is Commit);
                if rest.len() == 0 {
                    assert(tail == seq![next]);
                    assert(false);
                }
                let next2 = next_step_model(next, rest[0]);
                let tail2 = fetch_run(next2, rest.drop_first());
                assert(tail == seq![next] + tail2);
                assert(tail.last() == tail2.last());
                if rest[0] == FetchOutcome::Finished(Ok(())) {
                    assert(run[1] == next);
                    assert(outcomes[1] == rest[0]);
                    let k: int = 0;
                    assert(0 <= k && k + 1 < outcomes.len() && run[k] is RunFetch
                        && outcomes[k] == FetchOutcome::Finished(Ok(())) && run[k + 1] is Commit
                        && outcomes[k + 1] == FetchOutcome::Finished(Ok(())));
                    assert(ended_in_place(run, outcomes));
                } else {
                    assert(run_fits(next, rest));
                    assert(outcome_fits(next, rest[0]));
                    match rest[0] {
                        FetchOutcome::Finished(Err(e)) => {
                            assert(next2 == FetchStep::Failed(LazyGetError::AtomicRename(e)));
                        },
                        FetchOutcome::Finished(Ok(u)) => {
                            assert(rest[0] == FetchOutcome::Finished(Ok(())));
                        },
                        FetchOutcome::Exists(_) => {},
                    }
                    assert(next2 is Failed);
                    lemma_failed_run_never_done(next2, rest.drop_first());
                }
            } else {
                assert(outcome_fits(step, outcomes[0]));
                match outcomes[0] {
                    FetchOutcome::Finished(Err(e)) => {
                        assert(next == FetchStep::Discard(e));
                    },
                    FetchOutcome::Finished(Ok(u)) => {
                        assert(outcomes[0] == FetchOutcome::Finished(Ok(())));
                    },
                    FetchOutcome::Exists(_) => {},
                }
                assert(next is Discard);
                lemma_failed_run_never_done(next, rest);
            }
        } else {
            assert(progress(next) <= 7 || next is Failed);
            if next is Failed {
                lemma_failed_run_never_done(next, rest);
            } else {
                assert(!(next is Done));
                lemma_done_only_cached_or_fetched(next, rest);
                lemma_shift_in_place(step, outcomes);
            }
        }
    }
}

/// A refetch of an artifact that is not cached goes on exactly as a fetch
/// does: after finding nothing to remove, its steps are those of a fetch
/// given the same outcomes.
pub proof fn lemma_refetch_uncached_is_fetch(outcomes: Seq<FetchOutcome>)
    ensures
        fetch_run(FetchStep::CheckCached, seq![FetchOutcome::Exists(false)] + outcomes)
            == seq![FetchStep::CheckCached] + fetch_run(FetchStep::CheckTarget, outcomes),
{
    let all = seq![FetchOutcome::Exists(false)] + outcomes;
    assert(all[0] == FetchOutcome::Exists(false));
    assert(all.drop_first() =~= outcomes);
}

} // verus!

use inherit::lazyget::{
    fetch_start, id_from_digest, next_step, refetch_start, temp_dir_name, FetchOutcome, FetchStep,
};
use inherit::make_id;
use inherit::LazyGetError;

#[test]
fn test_make_id_deterministic() {
    let id1 = make_id("https://example.com", Some("abc"));
    let id2 = make_id("https://example.com", Some("abc"));
    assert_eq!(id1, id2);
    assert_eq!(id1.len(), 64);
}

#[test]
fn test_make_id_different_urls() {
    let id1 = make_id("https://example.com/a", None);
    let id2 = make_id("https://example.com/b", None);
    assert_ne!(id1, id2);
}

#[test]
fn make_id_is_sha256_hex() {
    assert_eq!(
        make_id("https://example.com", Some("abc")),
        "4cdbc5ecb4e780bfd973e327b8fbeb1a9128a47aed1af6d352af617844950357"
    );
    assert_eq!(
        make_id("https://example.com/a", None),
        "2dce0a4c50441bfccfa9caf4b58c3cba6e06c420505dd829f0436de1aa44baac"
    );
    assert_eq!(
        make_id("héllo", None),
        "3c48591d8d098a4538f5e013dfcf406e948eac4d3277b10bf614e295d6068179"
    );
}

#[test]
fn digest_as_hex() {
    assert_eq!(id_from_digest(&[0x00, 0x0f, 0xa0, 0xff]), "000fa0ff");
    assert_eq!(id_from_digest(&[]), "");
}

#[test]
fn temp_dir_names() {
    assert_eq!(temp_dir_name("abc"), ".abc-tmp");
}

fn run(mut step: FetchStep, outcomes: Vec<FetchOutcome>) -> (FetchStep, usize) {
    let mut fetches = 0;
    for o in outcomes {
        if matches!(step, FetchStep::RunFetch) {
            fetches += 1;
        }
        step = next_step(step, o);
    }
    (step, fetches)
}

#[test]
fn cached_artifact_is_not_fetched_again() {
    let (end, fetches) = run(fetch_start(), vec![FetchOutcome::Exists(true)]);
    assert!(matches!(end, FetchStep::Done));
    assert_eq!(fetches, 0);
}

#[test]
fn fresh_fetch_runs_once_and_commits() {
    let (end, fetches) = run(
        fetch_start(),
        vec![
            FetchOutcome::Exists(false),
            FetchOutcome::Finished(Ok(())),
            FetchOutcome::Exists(true),
            FetchOutcome::Finished(Ok(())),
            FetchOutcome::Finished(Ok(())),
            FetchOutcome::Finished(Ok(())),
            FetchOutcome::Finished(Ok(())),
        ],
    );
    assert!(matches!(end, FetchStep::Done));
    assert_eq!(fetches, 1);
}

#[test]
fn failed_fetch_is_discarded() {
    let (end, _) = run(
        fetch_start(),
        vec![
            FetchOutcome::Exists(false),
            FetchOutcome::Finished(Ok(())),
            FetchOutcome::Exists(false),
            FetchOutcome::Finished(Ok(())),
            FetchOutcome::Finished(Err("simulated failure".to_string())),
        ],
    );
    assert!(matches!(end, FetchStep::Discard(ref e) if e == "simulated failure"));
    let end = next_step(end, FetchOutcome::Finished(Ok(())));
    assert!(matches!(end, FetchStep::Failed(LazyGetError::Fetch(ref e)) if e == "simulated failure"));
}

#[test]
fn errors_of_each_operation() {
    let e = || FetchOutcome::Finished(Err("boom".to_string()));
    assert!(matches!(next_step(FetchStep::CreateCacheDir, e()), FetchStep::Failed(LazyGetError::CacheCreate(_))));
    assert!(matches!(next_step(FetchStep::RemoveTemp, e()), FetchStep::Failed(LazyGetError::Io(_))));
    assert!(matches!(next_step(FetchStep::CreateTemp, e()), FetchStep::Failed(LazyGetError::Io(_))));
    assert!(matches!(next_step(FetchStep::Commit, e()), FetchStep::Failed(LazyGetError::AtomicRename(_))));
    assert!(matches!(next_step(FetchStep::RemoveCached, e()), FetchStep::Failed(LazyGetError::Io(_))));
}

#[test]
fn refetch_removes_then_fetches() {
    let step = refetch_start();
    let step = next_step(step, FetchOutcome::Exists(true));
    assert!(matches!(step, FetchStep::RemoveCached));
    let step = next_step(step, FetchOutcome::Finished(Ok(())));
    assert!(matches!(step, FetchStep::CheckTarget));
    let step = next_step(step, FetchOutcome::Exists(false));
    assert!(matches!(step, FetchStep::CreateCacheDir));
}

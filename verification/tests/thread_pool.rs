use split_ordered::thread_pool::ThreadPoolInner;

#[test]
fn job_count_follows_start_and_finish() {
    let mut inner = ThreadPoolInner::new();
    assert_eq!(inner.job_count(), 0);
    assert!(!inner.wait_empty());
    inner.start_job();
    inner.start_job();
    assert_eq!(inner.job_count(), 2);
    assert!(inner.wait_empty());
    assert!(!inner.finish_job());
    assert!(inner.wait_empty());
    assert!(inner.finish_job());
    assert_eq!(inner.job_count(), 0);
    assert!(!inner.wait_empty());
}

#[test]
fn the_last_finish_wakes_the_waiter() {
    let mut inner = ThreadPoolInner::new();
    for _ in 0..1024 {
        inner.start_job();
    }
    for left in (0..1024).rev() {
        assert_eq!(inner.finish_job(), left == 0);
    }
}

#[test]
fn default_inner_has_no_job() {
    let inner = ThreadPoolInner::default();
    assert_eq!(inner.job_count(), 0);
    assert_eq!(format!("{:?}", inner), "ThreadPoolInner { job_count: 0 }");
}

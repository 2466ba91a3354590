use srpc::error::Error;
use srpc::thread_pool::ThreadPool;

#[test]
fn test_thread_pool() {
    let mut pool = ThreadPool::new(4).unwrap();
    pool.execute(|| {
        println!("---\n execute \n---");
    })
    .unwrap();
    assert_eq!(pool.worker_count(), 4);
}

#[test]
fn zero_workers_are_rejected() {
    let pool: Result<ThreadPool<fn()>, Error> = ThreadPool::new(0);
    assert!(matches!(pool, Err(Error::OtherError(_))));
    assert!(ThreadPool::<fn()>::new(1).is_ok());
}

#[test]
fn teardown_keeps_jobs_submitted_before_it() {
    let mut pool: ThreadPool<i32> = ThreadPool::new(2).unwrap();
    for j in 0..5 {
        pool.execute(j).unwrap();
    }
    pool.close();
    // Jobs submitted during teardown are refused.
    assert!(matches!(pool.execute(99), Err(Error::OtherError(_))));
    // Every job submitted before teardown still runs, in order.
    let mut drained = Vec::new();
    while let Some(j) = pool.take_job() {
        drained.push(j);
    }
    assert_eq!(drained, vec![0, 1, 2, 3, 4]);
    assert!(pool.take_job().is_none());
}

#[test]
fn jobs_are_handed_out_first_in_first_out() {
    let mut pool: ThreadPool<&str> = ThreadPool::new(1).unwrap();
    pool.execute("a").unwrap();
    pool.execute("b").unwrap();
    assert_eq!(pool.take_job(), Some("a"));
    pool.execute("c").unwrap();
    assert_eq!(pool.take_job(), Some("b"));
    assert_eq!(pool.take_job(), Some("c"));
    assert_eq!(pool.take_job(), None);
}

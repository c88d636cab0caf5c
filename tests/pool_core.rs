use eleonora::dispatch::{Claim, Dispatcher, WorkerState};
use eleonora::sizing::resolve_worker_count;

/// Lets worker `w` claim one job and run it to completion with `run`.
/// Returns false when the worker did not get a job.
fn step<J, T>(d: &mut Dispatcher<J, T>, w: usize, run: impl Fn(J) -> T) -> bool {
    match d.claim(w) {
        Claim::Job(job) => {
            d.finish(w, run(job));
            true
        }
        Claim::Wait | Claim::Closed => false,
    }
}

/// Closes the queue and lets every worker take jobs round robin until all of
/// them have stopped, then returns the outputs.
fn drain<J, T>(mut d: Dispatcher<J, T>, run: impl Fn(J) -> T) -> Vec<T> {
    d.close();
    while !d.is_drained() {
        for w in 0..d.worker_count() {
            if d.state(w) != WorkerState::Stopped {
                step(&mut d, w, &run);
            }
        }
    }
    d.into_outputs()
}

fn exclamate(word: String) -> String {
    word + "!"
}

#[test]
fn requested_worker_count_is_kept() {
    for n in [1usize, 2, 7, 255] {
        assert_eq!(resolve_worker_count(Some(n), Some(4)), Some(n));
        assert_eq!(resolve_worker_count(Some(n), None), Some(n));
        let d: Dispatcher<u32, u32> = Dispatcher::new(n);
        assert_eq!(d.worker_count(), n);
        for w in 0..n {
            assert_eq!(d.state(w), WorkerState::Idle);
        }
    }
}

#[test]
fn default_worker_count_is_detected_parallelism() {
    let n = resolve_worker_count(None, Some(8)).unwrap();
    assert!(n >= 1 && n <= 128);
    assert_eq!(n, 8);
}

#[test]
fn worker_count_must_be_positive() {
    assert_eq!(resolve_worker_count(Some(0), Some(8)), None);
    assert_eq!(resolve_worker_count(None, Some(0)), None);
    assert_eq!(resolve_worker_count(None, None), None);
}

#[test]
fn one_job_gives_one_output() {
    let mut d: Dispatcher<String, String> = Dispatcher::new(4);
    assert!(d.submit("zahash".to_string()).is_ok());
    let outputs = drain(d, exclamate);
    assert_eq!(1, outputs.len());
    assert_eq!(outputs[0], "zahash!");
    assert!(outputs[0].ends_with('!'));
}

#[test]
fn empty_pool_drains_to_nothing() {
    let mut d: Dispatcher<u32, u32> = Dispatcher::new(3);
    d.close();
    for w in 0..3 {
        assert!(matches!(d.claim(w), Claim::Closed));
        assert_eq!(d.state(w), WorkerState::Stopped);
    }
    assert!(d.is_drained());
    assert!(d.into_outputs().is_empty());
}

#[test]
fn five_words_are_exclaimed() {
    let words = ["dog", "cat", "rat", "fat", "mouse"];
    let mut d: Dispatcher<String, String> = Dispatcher::new(2);
    for word in words {
        assert!(d.submit(word.to_string()).is_ok());
    }
    let outputs = drain(d, exclamate);
    assert_eq!(outputs.len(), 5);
    assert!(outputs.iter().all(|o| o.ends_with('!')));
    let mut stripped: Vec<&str> = outputs.iter().map(|o| o.strip_suffix('!').unwrap()).collect();
    stripped.sort();
    let mut expected = words.to_vec();
    expected.sort();
    assert_eq!(stripped, expected);
}

#[test]
fn many_jobs_give_as_many_outputs() {
    let mut d: Dispatcher<u64, u64> = Dispatcher::new(3);
    for k in 0..100u64 {
        assert!(d.submit(k).is_ok());
    }
    // Interleave: workers take jobs unevenly before the queue is closed.
    for _ in 0..10 {
        step(&mut d, 1, |k| k * k);
    }
    step(&mut d, 0, |k| k * k);
    let mut outputs = drain(d, |k| k * k);
    assert_eq!(outputs.len(), 100);
    outputs.sort();
    let expected: Vec<u64> = (0..100u64).map(|k| k * k).collect();
    assert_eq!(outputs, expected);
}

#[test]
fn jobs_are_claimed_in_submission_order() {
    let mut d: Dispatcher<u32, u32> = Dispatcher::new(2);
    for k in [5u32, 9, 1] {
        assert!(d.submit(k).is_ok());
    }
    assert!(matches!(d.claim(1), Claim::Job(5)));
    assert_eq!(d.state(1), WorkerState::Busy);
    assert!(matches!(d.claim(0), Claim::Job(9)));
    d.finish(1, 50);
    assert_eq!(d.state(1), WorkerState::Idle);
    assert!(matches!(d.claim(1), Claim::Job(1)));
}

#[test]
fn idle_worker_waits_on_open_empty_queue() {
    let mut d: Dispatcher<u32, u32> = Dispatcher::new(1);
    assert!(matches!(d.claim(0), Claim::Wait));
    assert_eq!(d.state(0), WorkerState::Idle);
    assert!(!d.is_drained());
}

#[test]
fn closed_queue_refuses_jobs() {
    let mut d: Dispatcher<u32, u32> = Dispatcher::new(1);
    d.close();
    assert_eq!(d.submit(7).err(), Some(7));
}

#[test]
fn queued_jobs_still_run_after_close() {
    let mut d: Dispatcher<u32, u32> = Dispatcher::new(1);
    assert!(d.submit(3).is_ok());
    d.close();
    assert!(matches!(d.claim(0), Claim::Job(3)));
    d.finish(0, 4);
    assert!(matches!(d.claim(0), Claim::Closed));
    assert_eq!(d.into_outputs(), vec![4]);
}

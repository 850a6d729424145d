//! How workers share threads.
use gitx_bounded::cache::delta::traverse::threads::{draw, is_done, is_worth_sharing, take_all, Crew};

#[test]
fn a_worker_takes_all_threads() {
    assert_eq!(take_all(3), Some(0));
    assert_eq!(take_all(0), None);
    assert_eq!(take_all(-1), None);
    assert!(!is_worth_sharing(1));
    assert!(is_worth_sharing(2));
}

#[test]
fn more_threads_are_drawn_for_waiting_bases() {
    assert_eq!(draw(5, 2), Some((2, 3)));
    assert_eq!(draw(2, 5), Some((2, 0)));
    assert_eq!(draw(0, 5), None);
    assert!(is_done(0, 0));
    assert!(!is_done(1, 0));
    assert!(!is_done(0, 1));
}

#[test]
fn all_threads_go_back() {
    let mut pool = 4isize;
    let initial = pool;
    pool = take_all(pool).unwrap();
    let mut crew = Crew::new(initial);
    let mut running = crew.start();
    assert_eq!(running, 5, "one in the worker's own place");
    for _ in 0..2 {
        running -= 1;
        pool += isize::from(crew.thread_ended());
    }
    assert_eq!(pool, 1);
    let (create, left) = draw(pool, 7).unwrap();
    pool = left;
    crew.add(create);
    running += crew.start();
    while running > 0 {
        running -= 1;
        pool += isize::from(crew.thread_ended());
    }
    assert_eq!(pool, 4);
}

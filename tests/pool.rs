use zangy::bridge::Completion;
use zangy::command::Command;
use zangy::pool::{ConnectionPool, PoolBuilder, PoolError};
use zangy::pubsub::PubSubPool;

#[test]
fn round_robin_visits_each_index_once() {
    for n in 1..6usize {
        for start in 0..n {
            let mut pool = ConnectionPool::new((0..n).collect::<Vec<usize>>());
            for _ in 0..start {
                pool.next_idx();
            }
            assert_eq!(pool.current(), start);
            let picked: Vec<usize> = (0..n).map(|_| pool.next_idx()).collect();
            let expected: Vec<usize> = (0..n).map(|k| (start + k) % n).collect();
            assert_eq!(picked, expected);
            let mut sorted = picked.clone();
            sorted.sort();
            assert_eq!(sorted, (0..n).collect::<Vec<usize>>());
            assert_eq!(pool.current(), start);
        }
    }
}

#[test]
fn pool_size_and_connections() {
    let pool = ConnectionPool::new(vec!["a", "b", "c"]);
    assert_eq!(pool.pool_size(), 3);
    assert_eq!(*pool.connection(1), "b");
    assert_eq!(pool.current(), 0);
}

#[test]
fn execute_without_arguments_is_refused() {
    let mut pool = ConnectionPool::new(vec![10u32, 20u32]);
    let mut sent = 0;
    let cmd = Command::new();
    match pool.execute(&cmd) {
        Ok(i) => {
            let _ = pool.connection(i);
            sent += 1;
        }
        Err(e) => assert_eq!(e, PoolError::ArgumentError),
    }
    assert_eq!(sent, 0);
    assert_eq!(pool.current(), 0);
}

#[test]
fn execute_selects_in_turn() {
    let mut pool = ConnectionPool::new(vec![10u32, 20u32]);
    let cmd = Command::from_args(vec![b"GET".to_vec(), b"k".to_vec()]);
    assert_eq!(pool.execute(&cmd), Ok(0));
    assert_eq!(pool.execute(&cmd), Ok(1));
    assert_eq!(pool.execute(&cmd), Ok(0));
}

#[test]
fn command_frame() {
    let mut cmd = Command::new();
    assert_eq!(cmd.frame(), b"*0\r\n".to_vec());
    cmd.arg(b"SET".to_vec());
    cmd.arg(b"key".to_vec());
    cmd.arg(b"".to_vec());
    assert_eq!(cmd.len(), 3);
    assert_eq!(cmd.frame(), b"*3\r\n$3\r\nSET\r\n$3\r\nkey\r\n$0\r\n\r\n".to_vec());
    assert_eq!(cmd.args()[1], b"key".to_vec());
}

#[test]
fn checkout_from_empty_pool() {
    let mut pool: PubSubPool<u8> = PubSubPool::new(Vec::new());
    assert!(matches!(pool.checkout(), Err(PoolError::PoolEmpty)));
    assert_eq!(pool.available(), 0);
}

#[test]
fn pubsub_lifecycle() {
    let mut pool = PubSubPool::new(vec![1u8, 2u8]);
    let mut session = pool.checkout().ok().unwrap();
    assert_eq!(pool.available(), 1);
    assert!(session.is_open());
    assert_eq!(session.connection().ok().map(|c| *c), Some(2));
    session.close(&mut pool);
    assert_eq!(pool.available(), 2);
    assert!(!session.is_open());
    assert!(matches!(session.connection(), Err(PoolError::PubSubClosed)));
    session.close(&mut pool);
    assert_eq!(pool.available(), 2);
    let _a = pool.checkout().ok().unwrap();
    let _b = pool.checkout().ok().unwrap();
    assert!(matches!(pool.checkout(), Err(PoolError::PoolEmpty)));
}

#[test]
fn session_connection_is_mutable() {
    let mut pool = PubSubPool::new(vec![5u32]);
    let mut session = pool.checkout().ok().unwrap();
    if let Ok(c) = session.connection() {
        *c += 1;
    }
    session.close(&mut pool);
    let mut again = pool.checkout().ok().unwrap();
    assert_eq!(again.connection().ok().map(|c| *c), Some(6));
}

#[test]
fn completion_settles_once() {
    let mut c: Completion<u32, String> = Completion::new();
    assert!(!c.is_resolved());
    assert!(c.resolve(7));
    assert!(c.is_resolved());
    assert!(!c.resolve(8));
    assert!(!c.resolve_error("late".to_string()));
}

#[test]
fn completion_error_then_value_is_ignored() {
    let mut c: Completion<u32, String> = Completion::new();
    assert!(c.resolve_error("boom".to_string()));
    assert!(!c.resolve(1));
    assert!(c.is_resolved());
}

#[test]
fn completion_after_abandon_is_noop() {
    let mut c: Completion<u32, String> = Completion::new();
    c.abandon();
    assert!(!c.resolve(1));
    assert!(!c.resolve_error("x".to_string()));
    assert!(!c.is_resolved());
}

#[test]
fn builder_is_all_or_nothing() {
    let mut builder = PoolBuilder::new(3);
    assert!(!builder.is_complete());
    builder.add("a");
    builder.add("b");
    assert!(!builder.is_complete());
    builder.add("c");
    assert!(builder.is_complete());
    let mut pool = builder.finish();
    assert_eq!(pool.pool_size(), 3);
    assert_eq!(pool.current(), 0);
    assert_eq!(*pool.connection(2), "c");
    assert_eq!(pool.next_idx(), 0);
}

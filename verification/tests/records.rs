use vnt::level::{get_log_level, level_from_upper, LogLevel};
use vnt::postgres::Postgres;
use vnt::types::{CLog, Flow, Log, Node, Route};
use vnt::util::{bytes_eq, id_to_idx};

#[test]
fn node_to_string() {
    let n = Node::new(3, String::from("10.0.0.7"), 8080);
    assert_eq!(n.to_string(), "id: 3, ip: 10.0.0.7, port: 8080");
}

#[test]
fn route_new_and_to_string() {
    let r = Route::new(1, 0, 4, 2, -7);
    assert_eq!(r.next, 2);
    assert_eq!(r.to_string(), "id: 1, src: 0, dst: 4, next: 2, cost: -7");
}

#[test]
fn route_default_is_zero() {
    let r = Route::default();
    assert_eq!(r, Route::new(0, 0, 0, 0, 0));
}

#[test]
fn flow_to_string() {
    assert_eq!(Flow::new(9, 1, 2, true).to_string(), "id: 9, src: 1, dst: 2, is_done: true");
    assert_eq!(Flow::new(10, 3, 0, false).to_string(), "id: 10, src: 3, dst: 0, is_done: false");
}

#[test]
fn log_to_string() {
    let l = Log::new(12, 5, 0, 3, 1, 64, 2);
    assert_eq!(l.to_string(), "12|5|0|3|1|64|2");
}

#[test]
fn log_to_string_extremes() {
    let l = Log::new(i32::MIN, i32::MAX, -1, 0, 10, 100, 1000);
    assert_eq!(l.to_string(), "-2147483648|2147483647|-1|0|10|100|1000");
}

#[test]
fn log_equals_ignores_id() {
    let a = Log::new(1, 5, 0, 3, 1, 64, 2);
    let b = Log::new(2, 5, 0, 3, 1, 64, 2);
    let c = Log::new(1, 5, 0, 3, 1, 64, 3);
    assert!(a.equals(&b));
    assert!(!a.equals(&c));
}

#[test]
fn clog_to_string() {
    let c = CLog::new(4, 7, vec![1, 2, 255]);
    assert_eq!(c.to_string(), "id: 4, user_id: 7, hash_chain: [1, 2, 255]");
    let e = CLog::new(1, -2, vec![]);
    assert_eq!(e.to_string(), "id: 1, user_id: -2, hash_chain: []");
}

#[test]
fn clog_equals_ignores_id() {
    let a = CLog::new(1, 7, vec![1, 2]);
    let b = CLog::new(2, 7, vec![1, 2]);
    let c = CLog::new(1, 7, vec![1, 3]);
    let d = CLog::new(1, 8, vec![1, 2]);
    assert!(a.equals(&b));
    assert!(!a.equals(&c));
    assert!(!a.equals(&d));
}

#[test]
fn clog_clone_keeps_contents() {
    let a = CLog::new(1, 7, vec![9, 8]);
    let b = a.clone();
    assert_eq!(b.id, 1);
    assert_eq!(b.user_id, 7);
    assert_eq!(b.hash_chain, vec![9, 8]);
}

#[test]
fn id_to_idx_one_based() {
    assert_eq!(id_to_idx(1), 0);
    assert_eq!(id_to_idx(42), 41);
    assert_eq!(id_to_idx(0), usize::MAX);
}

#[test]
fn bytes_eq_compares_contents() {
    assert!(bytes_eq(&[1, 2, 3], &[1, 2, 3]));
    assert!(!bytes_eq(&[1, 2, 3], &[1, 2]));
    assert!(!bytes_eq(&[1, 2, 3], &[1, 2, 4]));
}

#[test]
fn postgres_connection_string() {
    let p = Postgres::new(
        String::from("localhost"),
        String::from("postgres"),
        String::from("pw"),
        String::from("vnt"),
    );
    assert_eq!(p.to_string(), "host=localhost user=postgres password=pw dbname=vnt");
}

#[test]
fn log_level_any_case() {
    assert_eq!(get_log_level("trace"), LogLevel::Trace);
    assert_eq!(get_log_level("Debug"), LogLevel::Debug);
    assert_eq!(get_log_level("INFO"), LogLevel::Info);
    assert_eq!(get_log_level("wArN"), LogLevel::Warn);
    assert_eq!(get_log_level("error"), LogLevel::Error);
}

#[test]
fn log_level_defaults_to_info() {
    assert_eq!(get_log_level("verbose"), LogLevel::Info);
    assert_eq!(get_log_level(""), LogLevel::Info);
    assert_eq!(level_from_upper("debug"), LogLevel::Info);
    assert_eq!(level_from_upper("DEBUG"), LogLevel::Debug);
}

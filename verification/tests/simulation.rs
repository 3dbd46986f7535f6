use vnt::simulator::{next_hop, route_table, Hop};
use vnt::types::Route;

#[test]
fn route_table_last_route_wins() {
    let routes = vec![
        Route::new(1, 0, 1, 1, 5),
        Route::new(2, 1, 0, 0, 5),
        Route::new(3, 0, 1, 0, 9),
        Route::new(4, 1, 1, 1, 0),
    ];
    let table = route_table(&routes, 3);
    assert_eq!(table.len(), 3);
    assert!(table.iter().all(|row| row.len() == 3));
    assert_eq!(table[0][1], Route::new(3, 0, 1, 0, 9));
    assert_eq!(table[1][0], Route::new(2, 1, 0, 0, 5));
    // Only the first `num_tables` routes are read.
    assert_eq!(table[1][1], Route::default());
    assert_eq!(table[2][2], Route::default());
}

#[test]
fn next_hop_follows_table() {
    let routes = vec![Route::new(1, 0, 1, 1, 1), Route::new(2, 1, 0, 0, 1)];
    let table = route_table(&routes, 2);
    assert_eq!(
        next_hop(&table, 0, 1, 0),
        Some(Hop { curr: 1, pred: 0, hop_cnt: 1 })
    );
    assert_eq!(
        next_hop(&table, 1, 0, 6),
        Some(Hop { curr: 0, pred: 1, hop_cnt: 7 })
    );
    assert_eq!(next_hop(&table, 1, 1, 4), None);
}

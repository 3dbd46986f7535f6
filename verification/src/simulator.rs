//! The routing decisions of the traffic simulator: the routing table built
//! from the database's routes, and the walk of a flow along it.
use vstd::prelude::*;

use crate::types::{default_route, Route};

verus! {

/// The route that the table holds for `(src, dst)`: the last of the given
/// routes for that pair, or the all-zero default route when there is none.
pub open spec fn table_entry(routes: Seq<Route>, src: int, dst: int) -> Route
    decreases routes.len(),
{
    if routes.len() == 0 {
        default_route()
    } else if routes.last().src == src && routes.last().dst == dst {
        routes.last()
    } else {
        table_entry(routes.drop_last(), src, dst)
    }
}

/// Whether every route of the sequence stays inside `n` routers.
pub open spec fn routes_in_range(routes: Seq<Route>, n: int) -> bool {
    forall|i: int|
        0 <= i < routes.len() ==> 0 <= #[trigger] routes[i].src < n && 0 <= routes[i].dst < n
}

/// The `n x n` routing table filled from the first `n` routes of the database.
pub fn route_table(db_routes: &Vec<Route>, num_tables: usize) -> (r: Vec<Vec<Route>>)
    requires
        num_tables <= db_routes.len(),
        routes_in_range(db_routes@.subrange(0, num_tables as int), num_tables as int),
    ensures
        r.len() == num_tables,
        forall|s: int| 0 <= s < num_tables ==> #[trigger] r[s].len() == num_tables,
        forall|s: int, d: int|
            0 <= s < num_tables && 0 <= d < num_tables ==> #[trigger] r[s][d] == table_entry(
                db_routes@.subrange(0, num_tables as int),
                s,
                d,
            ),
{
    let mut table: Vec<Vec<Route>> = Vec::new();
    let mut s: usize = 0;
    while s < num_tables
        invariant
            0 <= s <= num_tables,
            table.len() == s,
            forall|a: int| 0 <= a < s ==> #[trigger] table[a].len() == num_tables,
            forall|a: int, b: int|
                0 <= a < s && 0 <= b < num_tables ==> #[trigger] table[a][b] == default_route(),
        decreases num_tables - s,
    {
        let mut row: Vec<Route> = Vec::new();
        let mut d: usize = 0;
        while d < num_tables
            invariant
                0 <= d <= num_tables,
                row.len() == d,
                forall|b: int| 0 <= b < d ==> #[trigger] row[b] == default_route(),
            decreases num_tables - d,
        {
            row.push(Route::default());
            d = d + 1;
        }
        table.push(row);
        s = s + 1;
    }
    let ghost prefix = db_routes@.subrange(0, num_tables as int);
    let mut i: usize = 0;
    while i < num_tables
        invariant
            0 <= i <= num_tables,
            num_tables <= db_routes.len(),
            prefix == db_routes@.subrange(0, num_tables as int),
            routes_in_range(prefix, num_tables as int),
            table.len() == num_tables,
            forall|a: int| 0 <= a < num_tables ==> #[trigger] table[a].len() == num_tables,
            forall|a: int, b: int|
                0 <= a < num_tables && 0 <= b < num_tables ==> #[trigger] table[a][b]
                    == table_entry(prefix.subrange(0, i as int), a, b),
        decreases num_tables - i,
    {
        let route = db_routes[i];
        assert(prefix[i as int] == route);
        let src = route.src as usize;
        let dst = route.dst as usize;
        assert(0 <= src < num_tables && 0 <= dst < num_tables);
        assert(table[src as int].len() == num_tables);
        let ghost before = table@;
        let mut row: Vec<Route> = Vec::new();
        std::mem::swap(&mut row, &mut table[src]);
        assert(row@ == before[src as int]@);
        assert(table.len() == num_tables);
        row.set(dst, route);
        assert(row@ == before[src as int]@.update(dst as int, route));
        table.set(src, row);
        assert(table@[src as int]@ == before[src as int]@.update(dst as int, route));
        assert(forall|a: int| 0 <= a < num_tables && a != src ==> table@[a] == before[a]);
        assert(table@[src as int]@[dst as int] == route);
        assert(forall|b: int| 0 <= b < num_tables && b != dst ==> table@[src as int]@[b] == before[src as int]@[b]);
        proof {
            let pre = prefix.subrange(0, i as int);
            let post = prefix.subrange(0, i + 1);
            assert(post.drop_last() =~= pre);
            assert(post.last() == route);
            assert forall|a: int, b: int|
                0 <= a < num_tables && 0 <= b < num_tables implies #[trigger] table[a][b]
                == table_entry(post, a, b) by {
                if a == src as int && b == dst as int {
                    assert(table[a][b] == route);
                } else if a == src as int {
                    assert(table[a][b] == before[a][b]);
                } else {
                    assert(table[a] == before[a]);
                }
            }
        }
        i = i + 1;
    }
    assert(prefix.subrange(0, num_tables as int) =~= prefix);
    table
}

/// One hop of a flow: the router that receives the packet, the router that
/// sent it, and the hop count after the hop.
#[derive(Debug, Clone, Copy, PartialEq, Eq, Structural)]
pub struct Hop {
    pub curr: i32,
    pub pred: i32,
    pub hop_cnt: i32,
}

/// The next hop of a flow at `curr` towards `dst`, or `None` once it has arrived.
pub fn next_hop(table: &Vec<Vec<Route>>, curr: i32, dst: i32, hop_cnt: i32) -> (r: Option<Hop>)
    requires
        curr != dst ==> 0 <= curr < table.len() && 0 <= dst < table[curr as int].len(),
        curr != dst ==> hop_cnt < i32::MAX,
    ensures
        curr == dst ==> r is None,
        curr != dst ==> r == Some(
            Hop { curr: table[curr as int][dst as int].next, pred: curr, hop_cnt: (hop_cnt + 1) as i32 },
        ),
{
    if curr == dst {
        None
    } else {
        let route = &table[curr as usize][dst as usize];
        Some(Hop { curr: route.next, pred: curr, hop_cnt: hop_cnt + 1 })
    }
}

} // verus!

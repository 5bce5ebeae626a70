//! The overworld map: tiles joined by one-way connections, generated as three random
//! walks down the rows, and the player's place on it.

use vstd::prelude::*;

use crate::random::{random_in_range, thread_rng};
use crate::{GameState, START_TILE};

verus! {

/// A tile of the map: its column and its row.
pub type Tile = (i32, i32);

/// The connections of the map: for each tile, the tiles it leads to, in the order they
/// were added. No tile has two entries.
#[derive(Debug)]
pub struct MapData {
    entries: Vec<(Tile, Vec<Tile>)>,
}

/// Whether two tiles are the same.
pub fn same_tile(a: Tile, b: Tile) -> (same: bool)
    ensures
        same == (a == b),
{
    a.0 == b.0 && a.1 == b.1
}

/// The tile has an entry among the first entries.
pub open spec fn has_key(entries: Seq<(Tile, Vec<Tile>)>, k: Tile) -> bool {
    exists|i: int| 0 <= i < entries.len() && entries[i].0 == k
}

/// The position of the tile's entry.
pub open spec fn key_index(entries: Seq<(Tile, Vec<Tile>)>, k: Tile) -> int {
    choose|i: int| 0 <= i < entries.len() && entries[i].0 == k
}

/// No tile has two entries.
pub open spec fn keys_distinct(entries: Seq<(Tile, Vec<Tile>)>) -> bool {
    forall|i: int, j: int|
        0 <= i < entries.len() && 0 <= j < entries.len() && i != j ==> entries[i].0 != entries[j].0
}

/// The map as a function from a tile to the tiles it leads to.
pub open spec fn entries_map(entries: Seq<(Tile, Vec<Tile>)>) -> Map<Tile, Seq<Tile>> {
    Map::new(|k: Tile| has_key(entries, k), |k: Tile| entries[key_index(entries, k)].1@)
}

impl View for MapData {
    type V = Map<Tile, Seq<Tile>>;

    closed spec fn view(&self) -> Map<Tile, Seq<Tile>> {
        entries_map(self.entries@)
    }
}

impl MapData {
    /// The entries of the map, in order.
    pub closed spec fn entry_list(&self) -> Seq<(Tile, Vec<Tile>)> {
        self.entries@
    }

    /// No tile has two entries.
    pub closed spec fn well_formed(&self) -> bool {
        keys_distinct(self.entries@)
    }

    /// The entries of the map, in order.
    pub fn entries(&self) -> (e: &Vec<(Tile, Vec<Tile>)>)
        ensures
            e@ == self.entry_list(),
    {
        &self.entries
    }

    /// Whether no tile has two entries.
    pub fn keys_are_distinct(&self) -> (ok: bool)
        ensures
            ok == self.well_formed(),
    {
        let n = self.entries.len();
        for i in 0..n
            invariant
                n == self.entries@.len(),
                forall|a: int, b: int| 0 <= a < i && 0 <= b < n && a != b ==> self.entries@[a].0 != self.entries@[b].0,
        {
            for j in 0..n
                invariant
                    n == self.entries@.len(),
                    i < n,
                    forall|b: int| 0 <= b < j && b != i ==> self.entries@[i as int].0 != self.entries@[b].0,
            {
                if j != i && same_tile(self.entries[i].0, self.entries[j].0) {
                    return false;
                }
            }
        }
        true
    }

    /// A map without connections.
    pub fn new() -> (m: MapData)
        ensures
            m.well_formed(),
            m@ == Map::<Tile, Seq<Tile>>::empty(),
    {
        let m = MapData { entries: Vec::new() };
        assert(m@ =~= Map::<Tile, Seq<Tile>>::empty());
        m
    }

    /// The tiles that the tile leads to, if it has an entry.
    pub fn successors(&self, tile: Tile) -> (succ: Option<&Vec<Tile>>)
        requires
            self.well_formed(),
        ensures
            succ is None <==> !self@.contains_key(tile),
            succ matches Some(v) ==> v@ == self@[tile],
    {
        for i in 0..self.entries.len()
            invariant
                keys_distinct(self.entries@),
                forall|k: int| 0 <= k < i ==> self.entries@[k].0 != tile,
        {
            if same_tile(self.entries[i].0, tile) {
                proof {
                    let j = key_index(self.entries@, tile);
                    assert(self.entries@[i as int].0 == tile);
                    assert(j == i);
                }
                return Some(&self.entries[i].1);
            }
        }
        None
    }

    /// A copy of the map.
    pub fn copy(&self) -> (c: MapData)
        requires
            self.well_formed(),
        ensures
            c.well_formed(),
            c@ == self@,
            c.entry_list().len() == self.entry_list().len(),
            forall|i: int| 0 <= i < self.entry_list().len() ==> (#[trigger] c.entry_list()[i]).0 == self.entry_list()[i].0
                && c.entry_list()[i].1@ == self.entry_list()[i].1@,
    {
        let mut entries: Vec<(Tile, Vec<Tile>)> = Vec::new();
        let n = self.entries.len();
        for i in 0..n
            invariant
                n == self.entries@.len(),
                entries@.len() == i,
                forall|k: int| 0 <= k < i ==> (#[trigger] entries@[k]).0 == self.entries@[k].0
                    && entries@[k].1@ == self.entries@[k].1@,
        {
            let mut targets: Vec<Tile> = Vec::new();
            let src = &self.entries[i].1;
            for j in 0..src.len()
                invariant
                    targets@ == src@.take(j as int),
            {
                targets.push(src[j]);
                assert(targets@ =~= src@.take(j + 1));
            }
            assert(src@.take(src@.len() as int) =~= src@);
            entries.push((self.entries[i].0, targets));
        }
        let c = MapData { entries };
        proof {
            assert forall|k: Tile| #[trigger] has_key(c.entries@, k) == has_key(self.entries@, k) by {
                if has_key(c.entries@, k) {
                    let i = choose|i: int| 0 <= i < c.entries@.len() && c.entries@[i].0 == k;
                    assert(self.entries@[i].0 == k);
                }
                if has_key(self.entries@, k) {
                    let i = choose|i: int| 0 <= i < self.entries@.len() && self.entries@[i].0 == k;
                    assert(c.entries@[i].0 == k);
                }
            }
            assert forall|k: Tile| has_key(c.entries@, k) implies c@[k] == self@[k] by {
                let i = key_index(c.entries@, k);
                let j = key_index(self.entries@, k);
                assert(self.entries@[i].0 == k);
                assert(i == j);
            }
            assert(c@ =~= self@);
        }
        c
    }
}

/// The map after adding a connection from one tile to another.
pub open spec fn with_connection(m: Map<Tile, Seq<Tile>>, from: Tile, to: Tile) -> Map<Tile, Seq<Tile>> {
    m.insert(from, if m.contains_key(from) { m[from].push(to) } else { seq![to] })
}

/// Adds a connection: the tile leads to one more tile.
pub fn add_connection(connections: &mut MapData, from_tile: Tile, to_tile: Tile)
    requires
        old(connections).well_formed(),
    ensures
        final(connections).well_formed(),
        final(connections)@ == with_connection(old(connections)@, from_tile, to_tile),
{
    let ghost before = connections.entries@;
    let n = connections.entries.len();
    for i in 0..n
        invariant
            n == connections.entries@.len(),
            connections.entries@ == before,
            before == old(connections).entries@,
            keys_distinct(before),
            forall|k: int| 0 <= k < i ==> before[k].0 != from_tile,
    {
        if same_tile(connections.entries[i].0, from_tile) {
            connections.entries[i].1.push(to_tile);
            proof {
                let after = connections.entries@;
                assert(before[i as int].0 == from_tile);
                assert(key_index(before, from_tile) == i);
                assert forall|k: Tile| #[trigger] has_key(after, k) == has_key(before, k) by {
                    if has_key(after, k) {
                        let j = choose|j: int| 0 <= j < after.len() && after[j].0 == k;
                        assert(before[j].0 == k);
                    }
                    if has_key(before, k) {
                        let j = choose|j: int| 0 <= j < before.len() && before[j].0 == k;
                        assert(after[j].0 == k);
                    }
                }
                assert forall|k: Tile| has_key(after, k) implies entries_map(after)[k] == with_connection(
                    entries_map(before),
                    from_tile,
                    to_tile,
                )[k] by {
                    let j = key_index(after, k);
                    let j0 = key_index(before, k);
                    assert(before[j].0 == k);
                    assert(j == j0);
                }
                assert(entries_map(after) =~= with_connection(entries_map(before), from_tile, to_tile));
            }
            return;
        }
    }
    let mut targets: Vec<Tile> = Vec::new();
    targets.push(to_tile);
    connections.entries.push((from_tile, targets));
    proof {
        let after = connections.entries@;
        assert(!has_key(before, from_tile));
        assert(after[n as int].0 == from_tile);
        assert forall|k: Tile| #[trigger] has_key(after, k) == (has_key(before, k) || k == from_tile) by {
            if has_key(after, k) {
                let j = choose|j: int| 0 <= j < after.len() && after[j].0 == k;
                if j < n {
                    assert(before[j].0 == k);
                }
            }
            if has_key(before, k) {
                let j = choose|j: int| 0 <= j < before.len() && before[j].0 == k;
                assert(after[j].0 == k);
            }
        }
        assert forall|k: Tile| has_key(after, k) implies entries_map(after)[k] == with_connection(
            entries_map(before),
            from_tile,
            to_tile,
        )[k] by {
            let j = key_index(after, k);
            if k == from_tile {
                assert(j == n);
                assert(after[j].1@ =~= seq![to_tile]);
            } else {
                let j0 = key_index(before, k);
                assert(after[j0].0 == k);
                assert(j == j0);
            }
        }
        assert(entries_map(after) =~= with_connection(entries_map(before), from_tile, to_tile));
    }
}


/// The map after adding the connections in order.
pub open spec fn with_connections(m: Map<Tile, Seq<Tile>>, edges: Seq<(Tile, Tile)>) -> Map<Tile, Seq<Tile>>
    decreases edges.len(),
{
    if edges.len() == 0 {
        m
    } else {
        with_connection(with_connections(m, edges.drop_last()), edges.last().0, edges.last().1)
    }
}

/// A connection steps from a tile in columns 0 to 4 and rows 0 to 7 either one row on to
/// a column at most one away (still in columns 0 to 4), or from row 7 to the start tile.
pub open spec fn step_ok(from: Tile, to: Tile) -> bool {
    &&& 0 <= from.0 <= 4
    &&& 0 <= from.1 <= 7
    &&& {
        ||| from.1 < 7 && to.1 == from.1 + 1 && 0 <= to.0 <= 4 && from.0 - 1 <= to.0 <= from.0 + 1
        ||| from.1 == 7 && to == START_TILE
    }
}

/// Every tile of the map leads somewhere, and every connection is a step as above.
pub open spec fn layered(m: Map<Tile, Seq<Tile>>) -> bool {
    forall|k: Tile| #[trigger] m.contains_key(k) ==> m[k].len() > 0 && forall|i: int|
        0 <= i < m[k].len() ==> step_ok(k, #[trigger] m[k][i])
}

proof fn lemma_layered_with(m: Map<Tile, Seq<Tile>>, from: Tile, to: Tile)
    requires
        layered(m),
        step_ok(from, to),
    ensures
        layered(with_connection(m, from, to)),
{
    let m2 = with_connection(m, from, to);
    assert forall|k: Tile| #[trigger] m2.contains_key(k) implies m2[k].len() > 0 && forall|i: int|
        0 <= i < m2[k].len() ==> step_ok(k, #[trigger] m2[k][i]) by {
        if k == from {
            if m.contains_key(from) {
                assert forall|i: int| 0 <= i < m2[k].len() implies step_ok(k, #[trigger] m2[k][i]) by {
                    if i < m[from].len() {
                        assert(m2[k][i] == m[from][i]);
                    }
                }
            }
        }
    }
}

proof fn lemma_layered_edges(edges: Seq<(Tile, Tile)>)
    requires
        forall|i: int| 0 <= i < edges.len() ==> step_ok((#[trigger] edges[i]).0, edges[i].1),
    ensures
        layered(with_connections(Map::empty(), edges)),
    decreases edges.len(),
{
    if edges.len() > 0 {
        lemma_layered_edges(edges.drop_last());
        lemma_layered_with(with_connections(Map::empty(), edges.drop_last()), edges.last().0, edges.last().1);
    }
}

proof fn lemma_walks_edges_ok(walks: Seq<Seq<i32>>)
    requires
        forall|w: int| 0 <= w < walks.len() ==> valid_walk(#[trigger] walks[w]),
    ensures
        forall|i: int| 0 <= i < walks_edges(walks).len() ==> step_ok(
            (#[trigger] walks_edges(walks)[i]).0,
            walks_edges(walks)[i].1,
        ),
    decreases walks.len(),
{
    if walks.len() > 0 {
        lemma_walks_edges_ok(walks.drop_last());
        let xs = walks.last();
        assert(valid_walk(walks[walks.len() - 1]));
        assert forall|r: int| 0 <= r < 8 implies step_ok((#[trigger] walk_edges(xs)[r]).0, walk_edges(xs)[r].1) by {
            if r < 7 {
                assert(max_i(xs[r] - 1, 0) <= xs[r + 1] <= min_i(xs[r] + 1, 4));
                if r > 0 {
                    assert(max_i(xs[r - 1] - 1, 0) <= xs[(r - 1) + 1] <= min_i(xs[r - 1] + 1, 4));
                }
            } else {
                assert(max_i(xs[6int] - 1, 0) <= xs[6int + 1] <= min_i(xs[6int] + 1, 4));
            }
        }
        let a = walks_edges(walks.drop_last());
        let b = walk_edges(xs);
        assert forall|i: int| 0 <= i < (a + b).len() implies step_ok((#[trigger] (a + b)[i]).0, (a + b)[i].1) by {
            if i < a.len() {
                assert((a + b)[i] == a[i]);
            } else {
                assert((a + b)[i] == b[i - a.len()]);
            }
        }
    }
}

/// Every map made of valid walks is layered: each tile lies in columns 0 to 4 and rows 0
/// to 7 and leads somewhere, each connection goes one row on to a column at most one away,
/// and row 7 leads only to the start tile.
pub proof fn law_walk_maps_are_layered(walks: Seq<Seq<i32>>)
    requires
        forall|w: int| 0 <= w < walks.len() ==> valid_walk(#[trigger] walks[w]),
    ensures
        layered(map_of_walks(walks)),
{
    lemma_walks_edges_ok(walks);
    lemma_layered_edges(walks_edges(walks));
}

proof fn lemma_with_keeps(m: Map<Tile, Seq<Tile>>, from: Tile, to: Tile, k: Tile, t: Tile)
    requires
        m.contains_key(k) && m[k].contains(t),
    ensures
        with_connection(m, from, to).contains_key(k) && with_connection(m, from, to)[k].contains(t),
{
    let m2 = with_connection(m, from, to);
    let i = choose|i: int| 0 <= i < m[k].len() && m[k][i] == t;
    if k == from {
        assert(m2[k][i] == t);
    }
}

proof fn lemma_edges_present(edges: Seq<(Tile, Tile)>, i: int)
    requires
        0 <= i < edges.len(),
    ensures
        with_connections(Map::empty(), edges).contains_key(edges[i].0),
        with_connections(Map::empty(), edges)[edges[i].0].contains(edges[i].1),
    decreases edges.len(),
{
    let m = with_connections(Map::empty(), edges.drop_last());
    if i == edges.len() - 1 {
        let m2 = with_connection(m, edges[i].0, edges[i].1);
        let v = m2[edges[i].0];
        assert(v[v.len() - 1] == edges[i].1);
    } else {
        lemma_edges_present(edges.drop_last(), i);
        lemma_with_keeps(m, edges.last().0, edges.last().1, edges[i].0, edges[i].1);
    }
}

proof fn lemma_walk_edges_in(walks: Seq<Seq<i32>>, w: int, r: int)
    requires
        0 <= w < walks.len(),
        0 <= r < 8,
    ensures
        exists|i: int| 0 <= i < walks_edges(walks).len() && #[trigger] walks_edges(walks)[i] == walk_edges(walks[w])[r],
    decreases walks.len(),
{
    let a = walks_edges(walks.drop_last());
    let b = walk_edges(walks.last());
    assert(walks_edges(walks) == a + b);
    if w == walks.len() - 1 {
        assert((a + b)[a.len() + r] == b[r]);
        assert(walks_edges(walks)[a.len() + r] == walk_edges(walks[w])[r]);
    } else {
        lemma_walk_edges_in(walks.drop_last(), w, r);
        assert(walks.drop_last()[w] == walks[w]);
        let i = choose|i: int| 0 <= i < a.len() && #[trigger] a[i] == walk_edges(walks.drop_last()[w])[r];
        assert((a + b)[i] == a[i]);
        assert(walks_edges(walks)[i] == walk_edges(walks[w])[r]);
    }
}

/// Every walk is a path of the map made from it: each of its connections, down to the one
/// into the start tile, is in the map.
pub proof fn law_walks_are_paths(walks: Seq<Seq<i32>>, w: int, r: int)
    requires
        0 <= w < walks.len(),
        0 <= r < 8,
    ensures
        map_of_walks(walks).contains_key(walk_edges(walks[w])[r].0),
        map_of_walks(walks)[walk_edges(walks[w])[r].0].contains(walk_edges(walks[w])[r].1),
{
    lemma_walk_edges_in(walks, w, r);
    let i = choose|i: int| 0 <= i < walks_edges(walks).len() && #[trigger] walks_edges(walks)[i] == walk_edges(walks[w])[r];
    lemma_edges_present(walks_edges(walks), i);
}

/// The smaller of two integers.
pub open spec fn min_i(a: int, b: int) -> int {
    if a <= b { a } else { b }
}

/// The larger of two integers.
pub open spec fn max_i(a: int, b: int) -> int {
    if a >= b { a } else { b }
}

/// A walk down the map: one column per row 0 to 7, starting in columns 0 to 4, each step
/// going to the same column or a neighbouring one without leaving columns 0 to 4.
pub open spec fn valid_walk(xs: Seq<i32>) -> bool {
    &&& xs.len() == 8
    &&& 0 <= xs[0] <= 4
    &&& forall|r: int| 0 <= r < 7 ==> max_i(xs[r] - 1, 0) <= #[trigger] xs[r + 1] <= min_i(xs[r] + 1, 4)
}

/// The connections of a walk, in order: each row to the next, and row 7 to the start tile.
pub open spec fn walk_edges(xs: Seq<i32>) -> Seq<(Tile, Tile)> {
    Seq::new(
        8,
        |r: int| if r < 7 {
            ((xs[r], r as i32), (xs[r + 1], (r + 1) as i32))
        } else {
            ((xs[7], 7i32), START_TILE)
        },
    )
}

/// The connections of the walks, walk after walk.
pub open spec fn walks_edges(walks: Seq<Seq<i32>>) -> Seq<(Tile, Tile)>
    decreases walks.len(),
{
    if walks.len() == 0 {
        Seq::empty()
    } else {
        walks_edges(walks.drop_last()) + walk_edges(walks.last())
    }
}

/// The map made of the walks.
pub open spec fn map_of_walks(walks: Seq<Seq<i32>>) -> Map<Tile, Seq<Tile>> {
    with_connections(Map::empty(), walks_edges(walks))
}

/// The walks as sequences.
pub open spec fn walks_view(walks: Seq<Vec<i32>>) -> Seq<Seq<i32>> {
    walks.map_values(|w: Vec<i32>| w@)
}

proof fn lemma_with_connections_push(m: Map<Tile, Seq<Tile>>, edges: Seq<(Tile, Tile)>, e: (Tile, Tile))
    ensures
        with_connections(m, edges.push(e)) == with_connection(with_connections(m, edges), e.0, e.1),
{
    assert(edges.push(e).drop_last() =~= edges);
}

/// Builds the map from walks: the connections of each walk are added in order.
pub fn map_from_walks(walks: &Vec<Vec<i32>>) -> (m: MapData)
    requires
        forall|w: int| 0 <= w < walks@.len() ==> valid_walk(#[trigger] walks@[w]@),
    ensures
        m.well_formed(),
        m@ == map_of_walks(walks_view(walks@)),
{
    let mut m = MapData::new();
    let nw = walks.len();
    for w in 0..nw
        invariant
            nw == walks@.len(),
            forall|v: int| 0 <= v < walks@.len() ==> valid_walk(#[trigger] walks@[v]@),
            m.well_formed(),
            m@ == with_connections(Map::empty(), walks_edges(walks_view(walks@).take(w as int))),
    {
        let xs = &walks[w];
        assert(valid_walk(walks@[w as int]@));
        let ghost prefix = walks_edges(walks_view(walks@).take(w as int));
        for r in 0..8usize
            invariant
                xs@ == walks@[w as int]@,
                valid_walk(xs@),
                m.well_formed(),
                m@ == with_connections(Map::empty(), prefix + walk_edges(xs@).take(r as int)),
        {
            let from: Tile = (xs[r], r as i32);
            let to: Tile = if r < 7 { (xs[r + 1], (r + 1) as i32) } else { START_TILE };
            proof {
                assert(prefix + walk_edges(xs@).take(r + 1) =~= (prefix + walk_edges(xs@).take(r as int)).push(
                    (from, to),
                ));
                lemma_with_connections_push(Map::empty(), prefix + walk_edges(xs@).take(r as int), (from, to));
            }
            add_connection(&mut m, from, to);
        }
        proof {
            assert(walk_edges(xs@).take(8) =~= walk_edges(xs@));
            assert(walks_view(walks@).take(w + 1).drop_last() =~= walks_view(walks@).take(w as int));
            assert(walks_view(walks@).take(w + 1).last() == xs@);
        }
    }
    assert(walks_view(walks@).take(nw as int) =~= walks_view(walks@));
    m
}

/// Generates a map from three random walks (see `valid_walk`): each walk starts in a random
/// column of row 0 and at each row steps to a random column next to or under the last one.
pub fn generate_map_data() -> (m: MapData)
    ensures
        m.well_formed(),
        exists|walks: Seq<Seq<i32>>| walks.len() == 3 && (forall|w: int| 0 <= w < 3 ==> valid_walk(#[trigger] walks[w]))
            && m@ == map_of_walks(walks),
{
    let mut walks: Vec<Vec<i32>> = Vec::new();
    let mut rng = thread_rng();
    for w in 0..3usize
        invariant
            walks@.len() == w,
            forall|v: int| 0 <= v < w ==> valid_walk(#[trigger] walks@[v]@),
    {
        let mut xs: Vec<i32> = Vec::new();
        xs.push(random_in_range(&mut rng, 0, 4));
        for r in 0..(START_TILE.1 - 1)
            invariant
                0 <= r <= 7,
                xs@.len() == r + 1,
                0 <= xs@[0] <= 4,
                forall|k: int| 0 <= k < r ==> max_i(xs@[k] - 1, 0) <= #[trigger] xs@[k + 1] <= min_i(xs@[k] + 1, 4),
                forall|k: int| 0 <= k <= r ==> 0 <= #[trigger] xs@[k] <= 4,
        {
            let x = xs[r as usize];
            let low = if x - 1 > 0 { x - 1 } else { 0 };
            let high = if x + 1 < 4 { x + 1 } else { 4 };
            let next = random_in_range(&mut rng, low, high);
            xs.push(next);
        }
        walks.push(xs);
    }
    let m = map_from_walks(&walks);
    assert(walks_view(walks@).len() == 3);
    assert(forall|w: int| 0 <= w < 3 ==> valid_walk(#[trigger] walks_view(walks@)[w]));
    m
}

/// Where the player is on the map, and the map once it has been made.
#[derive(Debug)]
pub struct MapManager {
    pub map_data: Option<MapData>,
    pub current_tile: Tile,
}

impl MapManager {
    /// The map is well formed, if there is one.
    pub open spec fn well_formed(&self) -> bool {
        self.map_data matches Some(d) ==> d.well_formed()
    }

    /// The player moves to the tile, and the combat there begins.
    pub fn select_tile(&mut self, tile: Tile) -> (next: GameState)
        ensures
            final(self).current_tile == tile,
            final(self).map_data == old(self).map_data,
            next == GameState::Combat,
    {
        self.current_tile = tile;
        GameState::Combat
    }
}

/// The map to show and the tile the player stands on. A stored map is shown with the
/// stored tile; otherwise a new map is generated and stored, and the player stands on the
/// start tile (a new manager is made when there is none, standing on the start tile).
pub fn prepare_map(manager: &mut Option<MapManager>) -> (res: (MapData, Tile))
    requires
        *old(manager) matches Some(mm) ==> mm.well_formed(),
    ensures
        res.0.well_formed(),
        *final(manager) matches Some(mm) && mm.map_data matches Some(d) && d@ == res.0@ && d.well_formed(),
        match *old(manager) {
            Some(mm) => match mm.map_data {
                Some(d) => res.0@ == d@ && res.1 == mm.current_tile && (*final(manager))->0.current_tile == mm.current_tile
                    && (*final(manager))->0.map_data == mm.map_data,
                None => res.1 == START_TILE && (*final(manager))->0.current_tile == mm.current_tile && exists|
                    walks: Seq<Seq<i32>>,
                | walks.len() == 3 && (forall|w: int| 0 <= w < 3 ==> valid_walk(#[trigger] walks[w])) && res.0@
                    == map_of_walks(walks),
            },
            None => res.1 == START_TILE && (*final(manager))->0.current_tile == START_TILE && exists|
                walks: Seq<Seq<i32>>,
            | walks.len() == 3 && (forall|w: int| 0 <= w < 3 ==> valid_walk(#[trigger] walks[w])) && res.0@
                == map_of_walks(walks),
        },
{
    match manager {
        Some(mm) => {
            match &mm.map_data {
                Some(data) => {
                    let copy = data.copy();
                    (copy, mm.current_tile)
                },
                None => {
                    let data = generate_map_data();
                    mm.map_data = Some(data.copy());
                    (data, START_TILE)
                },
            }
        },
        None => {
            let data = generate_map_data();
            *manager = Some(MapManager { map_data: Some(data.copy()), current_tile: START_TILE });
            (data, START_TILE)
        },
    }
}

/// A tile can be picked when it leads to the tile the player stands on.
pub fn tile_is_selectable(map: &MapData, tile: Tile, current: Tile) -> (selectable: bool)
    requires
        map.well_formed(),
    ensures
        selectable == (map@.contains_key(tile) && map@[tile].contains(current)),
{
    match map.successors(tile) {
        None => false,
        Some(targets) => {
            for i in 0..targets.len()
                invariant
                    map@.contains_key(tile),
                    targets@ == map@[tile],
                    forall|k: int| 0 <= k < i ==> targets@[k] != current,
            {
                if same_tile(targets[i], current) {
                    assert(targets@[i as int] == current);
                    return true;
                }
            }
            false
        },
    }
}

} // verus!

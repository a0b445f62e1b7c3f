use vstd::prelude::*;
use std::collections::{BTreeMap, BTreeSet, VecDeque};
use crate::tree::{RoomType, Vertex, vertex_id};

verus! {

broadcast use vstd::std_specs::btree::group_btree_axioms, vstd::laws_cmp::group_laws_cmp;

/// Adjacency lists: for each vertex, its neighbours with the door states.
pub type Adjacency = BTreeMap<usize, Vec<(usize, bool)>>;

/// The door state that a character denotes: `O` open, `C` closed.
pub open spec fn door_of(c: char) -> Option<bool> {
    if c == 'O' {
        Some(true)
    } else if c == 'C' {
        Some(false)
    } else {
        None
    }
}

/// The room type that a character denotes: `P`, `M` or `E`.
pub open spec fn room_type_of(c: char) -> Option<RoomType> {
    if c == 'P' {
        Some(RoomType::Programmers)
    } else if c == 'M' {
        Some(RoomType::Managers)
    } else if c == 'E' {
        Some(RoomType::Empty)
    } else {
        None
    }
}

/// Reads a door state character.
pub fn parse_door(c: char) -> (r: Option<bool>)
    ensures
        r == door_of(c),
{
    if c == 'O' {
        Some(true)
    } else if c == 'C' {
        Some(false)
    } else {
        None
    }
}

/// Reads a room type character.
pub fn parse_room_type(c: char) -> (r: Option<RoomType>)
    ensures
        r == room_type_of(c),
{
    if c == 'P' {
        Some(RoomType::Programmers)
    } else if c == 'M' {
        Some(RoomType::Managers)
    } else if c == 'E' {
        Some(RoomType::Empty)
    } else {
        None
    }
}

/// Appends `item` to the list under `key`, which starts empty when absent.
pub open spec fn push_adj(m: Map<usize, Seq<(usize, bool)>>, key: usize, item: (usize, bool)) -> Map<
    usize,
    Seq<(usize, bool)>,
> {
    let list = if m.contains_key(key) {
        m[key]
    } else {
        Seq::empty()
    };
    m.insert(key, list.push(item))
}

/// The undirected adjacency of an edge list: each edge `(a, b, s)` appends
/// `(b, s)` under `a`, then `(a, s)` under `b`, in the order of the list.
pub open spec fn adjacency_of(edges: Seq<(usize, usize, bool)>) -> Map<usize, Seq<(usize, bool)>>
    decreases edges.len(),
{
    if edges.len() == 0 {
        Map::empty()
    } else {
        let e = edges.last();
        push_adj(push_adj(adjacency_of(edges.drop_last()), e.0, (e.1, e.2)), e.1, (e.0, e.2))
    }
}

/// The lists of an adjacency map as sequences.
pub open spec fn adj_view(m: Map<usize, Vec<(usize, bool)>>) -> Map<usize, Seq<(usize, bool)>> {
    m.map_values(|l: Vec<(usize, bool)>| l@)
}

fn push_adjacent(map: &mut Adjacency, key: usize, item: (usize, bool))
    ensures
        adj_view(final(map)@) == push_adj(adj_view(old(map)@), key, item),
{
    let mut list = match map.remove(&key) {
        Some(l) => l,
        None => Vec::new(),
    };
    list.push(item);
    map.insert(key, list);
    assert(adj_view(map@) =~= push_adj(adj_view(old(map)@), key, item));
}

/// Builds the undirected adjacency of an edge list.
pub fn build_adjacency(edges: &Vec<(usize, usize, bool)>) -> (r: Adjacency)
    ensures
        adj_view(r@) == adjacency_of(edges@),
{
    let mut map: Adjacency = BTreeMap::new();
    let mut i: usize = 0;
    assert(adj_view(map@) =~= adjacency_of(edges@.take(0)));
    while i < edges.len()
        invariant
            0 <= i <= edges.len(),
            adj_view(map@) == adjacency_of(edges@.take(i as int)),
        decreases edges.len() - i,
    {
        let (a, b, s) = edges[i];
        push_adjacent(&mut map, a, (b, s));
        push_adjacent(&mut map, b, (a, s));
        assert(edges@.take(i + 1).drop_last() =~= edges@.take(i as int));
        i = i + 1;
    }
    assert(edges@.take(i as int) =~= edges@);
    map
}

/// Every vertex that a list names has a list of its own.
pub open spec fn adjacency_closed(adj: Map<usize, Seq<(usize, bool)>>) -> bool {
    forall|a: usize, j: int|
        adj.contains_key(a) && 0 <= j < adj[a].len() ==> adj.contains_key((#[trigger] adj[a][j]).0)
}

proof fn lemma_push_adj_closed(m: Map<usize, Seq<(usize, bool)>>, a: usize, b: usize, s: bool)
    requires
        adjacency_closed(m),
    ensures
        adjacency_closed(push_adj(push_adj(m, a, (b, s)), b, (a, s))),
{
    let m1 = push_adj(m, a, (b, s));
    let m2 = push_adj(m1, b, (a, s));
    assert forall|x: usize, j: int| m2.contains_key(x) && 0 <= j < m2[x].len() implies m2.contains_key(
        (#[trigger] m2[x][j]).0,
    ) by {
        if x != a && x != b {
            assert(m2[x] == m[x]);
        } else if x == b {
            if j < m2[x].len() - 1 {
                assert(m2[x][j] == m1[x][j]);
                if x == a {
                    if j < m1[x].len() - 1 {
                        assert(m1[x][j] == m[x][j]);
                    }
                } else {
                    assert(m1[x][j] == m[x][j]);
                }
            }
        } else {
            assert(m2[x] == m1[x]);
            if j < m1[x].len() - 1 {
                assert(m1[x][j] == m[x][j]);
            }
        }
    }
}

/// Every vertex that the adjacency of an edge list names has a list.
pub proof fn lemma_adjacency_closed(edges: Seq<(usize, usize, bool)>)
    ensures
        adjacency_closed(adjacency_of(edges)),
    decreases edges.len(),
{
    if edges.len() > 0 {
        lemma_adjacency_closed(edges.drop_last());
        let e = edges.last();
        lemma_push_adj_closed(adjacency_of(edges.drop_last()), e.0, e.1, e.2);
    }
}

proof fn lemma_swap_keeps_adjacency(edges: Seq<(usize, usize, bool)>, i: int)
    requires
        0 <= i < edges.len(),
    ensures
        adjacency_of(edges.update(i, (edges[i].1, edges[i].0, edges[i].2))) == adjacency_of(edges),
    decreases edges.len(),
{
    let e = edges[i];
    let swapped = edges.update(i, (e.1, e.0, e.2));
    if i == edges.len() - 1 {
        assert(swapped.drop_last() =~= edges.drop_last());
        let m = adjacency_of(edges.drop_last());
        assert(push_adj(push_adj(m, e.1, (e.0, e.2)), e.0, (e.1, e.2)) =~= push_adj(
            push_adj(m, e.0, (e.1, e.2)),
            e.1,
            (e.0, e.2),
        ));
    } else {
        lemma_swap_keeps_adjacency(edges.drop_last(), i);
        assert(swapped.drop_last() =~= edges.drop_last().update(i, (e.1, e.0, e.2)));
    }
}

/// Why an input could not be loaded into a tree.
#[derive(Clone, Copy, Debug, PartialEq, Eq, Structural)]
pub enum LoadError {
    /// A vertex id outside `1..=n`.
    VertexOutOfRange(usize),
    /// A door state character other than `O` or `C`.
    BadDoorState(char),
    /// A room type character other than `P`, `M` or `E`.
    BadRoomType(char),
    /// Vertex 1 has no recorded adjacency, or a hub reached from it through
    /// hubs has no neighbour reached after it.
    MissingAdjacency(usize),
    /// The number of edges, which is not one less than the number of vertices.
    EdgeCount(usize),
    /// A vertex that cannot be reached from vertex 1.
    Unreachable(usize),
}

/// Every oriented edge `a -> b` is an undirected edge of `adj`, and ranks
/// below `bound` increase from parent to child.
pub open spec fn ranked_within(
    e: Map<usize, Seq<(usize, bool)>>,
    adj: Map<usize, Seq<(usize, bool)>>,
    rank: Map<usize, nat>,
    bound: nat,
) -> bool {
    &&& forall|a: usize| #[trigger] e.contains_key(a) ==> rank.contains_key(a) && adj.contains_key(a)
        && e[a].len() > 0
    &&& forall|a: usize, j: int|
        e.contains_key(a) && 0 <= j < e[a].len() ==> {
            &&& rank.contains_key(#[trigger] e[a][j].0)
            &&& rank[a] < rank[e[a][j].0]
            &&& adj[a].contains(e[a][j])
        }
    &&& forall|a: usize| #[trigger] rank.contains_key(a) ==> rank[a] < bound
}

/// The oriented children of `a`: its list, or nothing where it has none.
pub open spec fn children_in(e: Map<usize, Seq<(usize, bool)>>, a: usize) -> Seq<(usize, bool)> {
    if e.contains_key(a) {
        e[a]
    } else {
        Seq::empty()
    }
}

/// The entries of `list`, in order, whose vertex was not ranked at or before
/// rank `r`.
pub open spec fn later_neighbours(list: Seq<(usize, bool)>, rank: Map<usize, nat>, r: nat) -> Seq<
    (usize, bool),
>
    decreases list.len(),
{
    if list.len() == 0 {
        Seq::empty()
    } else {
        let rest = later_neighbours(list.drop_last(), rank, r);
        let p = list.last();
        if rank.contains_key(p.0) && rank[p.0] <= r {
            rest
        } else {
            rest.push(p)
        }
    }
}

/// Some vertex ranked below `bound` lists `b` among its neighbours.
pub open spec fn listed_below(
    adj: Map<usize, Seq<(usize, bool)>>,
    rank: Map<usize, nat>,
    b: usize,
    bound: nat,
) -> bool {
    exists|a: usize, j: int|
        rank.contains_key(a) && rank[a] < bound && adj.contains_key(a) && 0 <= j < adj[a].len()
            && (#[trigger] adj[a][j]).0 == b
}

/// `rank` numbers the vertices that can be reached from vertex 1, in an
/// order where each vertex follows one of its neighbours: vertex 1 comes
/// first, ranks are distinct and below the number of ranked vertices, every
/// neighbour of a ranked vertex is ranked, and every other ranked vertex is a
/// neighbour of one ranked before it.
pub open spec fn reach_ranking(rank: Map<usize, nat>, adj: Map<usize, Seq<(usize, bool)>>) -> bool {
    &&& rank.contains_key(1) && rank[1] == 0
    &&& forall|a: usize| #[trigger] rank.contains_key(a) ==> rank[a] < rank.dom().len()
    &&& forall|a: usize, b: usize|
        rank.contains_key(a) && rank.contains_key(b) && #[trigger] rank[a] == #[trigger] rank[b]
            ==> a == b
    &&& forall|a: usize| #[trigger] rank.contains_key(a) ==> adj.contains_key(a)
    &&& forall|a: usize, j: int|
        rank.contains_key(a) && 0 <= j < adj[a].len() ==> rank.contains_key((#[trigger] adj[a][j]).0)
    &&& forall|b: usize|
        #[trigger] rank.contains_key(b) && b != 1 ==> listed_below(adj, rank, b, rank[b])
}

proof fn lemma_later_neighbours_stable(list: Seq<(usize, bool)>, rank: Map<usize, nat>, r: nat, a: usize, c: nat)
    requires
        !rank.contains_key(a),
        c > r,
    ensures
        later_neighbours(list, rank.insert(a, c), r) == later_neighbours(list, rank, r),
    decreases list.len(),
{
    if list.len() > 0 {
        lemma_later_neighbours_stable(list.drop_last(), rank, r, a, c);
    }
}

proof fn lemma_listed_below_grows(
    adj: Map<usize, Seq<(usize, bool)>>,
    rank: Map<usize, nat>,
    b: usize,
    bound: nat,
    a: usize,
    c: nat,
    bound2: nat,
)
    requires
        listed_below(adj, rank, b, bound),
        !rank.contains_key(a),
        bound <= bound2,
    ensures
        listed_below(adj, rank.insert(a, c), b, bound2),
{
    let (x, j) = choose|x: usize, j: int|
        rank.contains_key(x) && rank[x] < bound && adj.contains_key(x) && 0 <= j < adj[x].len()
            && (#[trigger] adj[x][j]).0 == b;
    assert(rank.insert(a, c)[x] == rank[x]);
    assert(adj[x][j].0 == b);
}

/// Orients the undirected adjacency into a rooted tree by a breadth-first
/// traversal from vertex 1. Returns each vertex's children, which are its
/// neighbours ranked after it, with the ranking, or the first reached vertex
/// without adjacency.
fn orient(adj: &Adjacency) -> (r: Result<(Adjacency, BTreeSet<usize>, Ghost<Map<usize, nat>>, Ghost<nat>), usize>)
    requires
        adjacency_closed(adj_view(adj@)),
    ensures
        r matches Ok((e, seen, rank, bound)) ==> {
            &&& seen@ == rank@.dom()
            &&& bound@ == rank@.dom().len()
            &&& ranked_within(adj_view(e@), adj_view(adj@), rank@, bound@)
            &&& reach_ranking(rank@, adj_view(adj@))
            &&& forall|a: usize|
                #[trigger] rank@.contains_key(a) ==> children_in(adj_view(e@), a) == later_neighbours(
                    adj_view(adj@)[a],
                    rank@,
                    rank@[a],
                )
        },
        r matches Err(v) ==> v == 1 && !adj@.contains_key(1),
{
    let ghost adjv = adj_view(adj@);
    let mut e: Adjacency = BTreeMap::new();
    let mut seen: BTreeSet<usize> = BTreeSet::new();
    let mut queue: VecDeque<usize> = VecDeque::new();
    let ghost mut rank: Map<usize, nat> = Map::empty();
    let ghost mut count: nat = 0;
    queue.push_back(1);
    assert(queue@ =~= seq![1usize]);
    assert(queue@[0] == 1);
    while queue.len() > 0
        invariant
            adjv == adj_view(adj@),
            rank.dom() == seen@,
            rank.dom().finite(),
            rank.dom().len() == count,
            adjacency_closed(adjv),
            seen@.subset_of(adj@.dom()),
            seen@.contains(1) || queue@.contains(1),
            forall|a: usize| #[trigger] rank.contains_key(a) ==> rank[a] < count,
            count == 0 ==> queue@ == seq![1usize],
            count > 0 ==> rank.contains_key(1) && rank[1] == 0,
            forall|a: usize, b: usize|
                rank.contains_key(a) && rank.contains_key(b) && #[trigger] rank[a] == #[trigger] rank[b]
                    ==> a == b,
            forall|x: usize| #[trigger] queue@.contains(x) && x != 1 ==> listed_below(adjv, rank, x, count),
            forall|b: usize|
                #[trigger] rank.contains_key(b) && b != 1 ==> listed_below(adjv, rank, b, rank[b]),
            forall|a: usize, j: int|
                rank.contains_key(a) && 0 <= j < adjv[a].len() ==> rank.contains_key(
                    (#[trigger] adjv[a][j]).0,
                ) || queue@.contains(adjv[a][j].0),
            forall|a: usize|
                #[trigger] rank.contains_key(a) ==> children_in(adj_view(e@), a) == later_neighbours(
                    adjv[a],
                    rank,
                    rank[a],
                ),
            forall|a: usize| #[trigger] adj_view(e@).contains_key(a) ==> seen@.contains(a)
                && adj_view(e@)[a].len() > 0,
            forall|a: usize, j: int|
                adj_view(e@).contains_key(a) && 0 <= j < adj_view(e@)[a].len() ==> {
                    &&& adjv[a].contains(#[trigger] adj_view(e@)[a][j])
                    &&& (rank.contains_key(adj_view(e@)[a][j].0) && rank[a] < rank[adj_view(
                        e@,
                    )[a][j].0]) || (!seen@.contains(adj_view(e@)[a][j].0) && queue@.contains(
                        adj_view(e@)[a][j].0,
                    ))
                },
        decreases adj@.dom().difference(seen@).len(), queue@.len(),
    {
        let ghost q0 = queue@;
        let a = queue.pop_front().unwrap();
        assert(forall|x: usize| q0.contains(x) && x != a ==> queue@.contains(x)) by {
            assert forall|x: usize| q0.contains(x) && x != a implies queue@.contains(x) by {
                let k = choose|k: int| 0 <= k < q0.len() && q0[k] == x;
                assert(queue@[k - 1] == x);
            }
        }
        assert(q0.contains(a)) by {
            assert(q0[0] == a);
        }
        if !seen.contains(&a) {
            let ghost old_seen = seen@;
            let ghost old_rank = rank;
            let ghost old_count = count;
            seen.insert(a);
            proof {
                assert(rank.insert(a, count).dom() =~= rank.dom().insert(a));
                rank = rank.insert(a, count);
                count = count + 1;
                assert forall|x: usize| #[trigger] rank.contains_key(x) && x != 1 implies listed_below(
                    adjv,
                    rank,
                    x,
                    rank[x],
                ) by {
                    if x == a {
                        lemma_listed_below_grows(adjv, old_rank, x, old_count, a, old_count, old_count);
                    } else {
                        lemma_listed_below_grows(adjv, old_rank, x, old_rank[x], a, old_count, old_rank[x]);
                    }
                }
                assert forall|x: usize| #[trigger] queue@.contains(x) && x != 1 implies listed_below(
                    adjv,
                    rank,
                    x,
                    count,
                ) by {
                    assert(q0.contains(x)) by {
                        let k = choose|k: int| 0 <= k < queue@.len() && queue@[k] == x;
                        assert(q0[k + 1] == x);
                    }
                    lemma_listed_below_grows(adjv, old_rank, x, old_count, a, old_count, count);
                }
                assert forall|x: usize| #[trigger] rank.contains_key(x) && x != a implies children_in(
                    adj_view(e@),
                    x,
                ) == later_neighbours(adjv[x], rank, rank[x]) by {
                    lemma_later_neighbours_stable(adjv[x], old_rank, old_rank[x], a, old_count);
                }
                assert(!adj_view(e@).contains_key(a));
            }
            let list = match adj.get(&a) {
                Some(l) => l,
                None => {
                    proof {
                        if a != 1 {
                            let (x, k) = choose|x: usize, k: int|
                                old_rank.contains_key(x) && old_rank[x] < old_count && adjv.contains_key(x)
                                    && 0 <= k < adjv[x].len() && (#[trigger] adjv[x][k]).0 == a;
                            assert(adjv.contains_key(adjv[x][k].0));
                        }
                    }
                    return Err(a);
                },
            };
            proof {
                assert(adj@.dom().difference(seen@) =~= adj@.dom().difference(old_seen).remove(a));
                assert(list@.take(0) =~= Seq::<(usize, bool)>::empty());
            }
            let mut j: usize = 0;
            while j < list.len()
                invariant
                    0 <= j <= list.len(),
                    adjv == adj_view(adj@),
                    adjv.contains_key(a) && adjv[a] == list@,
                    rank.dom() == seen@,
                    rank.dom().finite(),
                    rank.dom().len() == count,
                    rank.contains_key(a),
                    seen@.subset_of(adj@.dom()),
                    seen@.contains(1) || queue@.contains(1),
                    forall|x: usize| #[trigger] rank.contains_key(x) ==> rank[x] < count,
                    rank[a] + 1 == count,
                    count > 0 ==> rank.contains_key(1) && rank[1] == 0,
                    forall|x: usize, y: usize|
                        rank.contains_key(x) && rank.contains_key(y) && #[trigger] rank[x]
                            == #[trigger] rank[y] ==> x == y,
                    forall|x: usize| #[trigger] queue@.contains(x) && x != 1 ==> listed_below(adjv, rank, x, count),
                    forall|b: usize|
                        #[trigger] rank.contains_key(b) && b != 1 ==> listed_below(adjv, rank, b, rank[b]),
                    forall|x: usize, k: int|
                        rank.contains_key(x) && x != a && 0 <= k < adjv[x].len() ==> rank.contains_key(
                            (#[trigger] adjv[x][k]).0,
                        ) || queue@.contains(adjv[x][k].0),
                    forall|k: int|
                        0 <= k < j ==> rank.contains_key((#[trigger] adjv[a][k]).0) || queue@.contains(
                            adjv[a][k].0,
                        ),
                    forall|x: usize|
                        #[trigger] rank.contains_key(x) && x != a ==> children_in(adj_view(e@), x)
                            == later_neighbours(adjv[x], rank, rank[x]),
                    children_in(adj_view(e@), a) == later_neighbours(list@.take(j as int), rank, rank[a]),
                    forall|x: usize| #[trigger] adj_view(e@).contains_key(x) ==> seen@.contains(x)
                        && adj_view(e@)[x].len() > 0,
                    forall|x: usize, k: int|
                        adj_view(e@).contains_key(x) && 0 <= k < adj_view(e@)[x].len() ==> {
                            &&& adjv[x].contains(#[trigger] adj_view(e@)[x][k])
                            &&& (rank.contains_key(adj_view(e@)[x][k].0) && rank[x] < rank[adj_view(
                                e@,
                            )[x][k].0]) || (!seen@.contains(adj_view(e@)[x][k].0)
                                && queue@.contains(adj_view(e@)[x][k].0))
                        },
                    adj@.dom().difference(seen@).len() < adj@.dom().difference(old_seen).len(),
                decreases list.len() - j,
            {
                let (b, s) = list[j];
                assert(adjv[a][j as int] == (b, s));
                assert(list@.take(j + 1).drop_last() =~= list@.take(j as int));
                assert(list@.take(j + 1).last() == (b, s));
                if !seen.contains(&b) {
                    let ghost e0 = adj_view(e@);
                    let ghost q1 = queue@;
                    push_adjacent(&mut e, a, (b, s));
                    queue.push_back(b);
                    assert(queue@[queue@.len() - 1] == b);
                    assert(forall|x: usize| q1.contains(x) ==> queue@.contains(x)) by {
                        assert forall|x: usize| q1.contains(x) implies queue@.contains(x) by {
                            let k = choose|k: int| 0 <= k < q1.len() && q1[k] == x;
                            assert(queue@[k] == x);
                        }
                    }
                    assert(listed_below(adjv, rank, b, count)) by {
                        assert(adjv[a][j as int].0 == b);
                    }
                    assert forall|x: usize| #[trigger] queue@.contains(x) && x != 1 implies listed_below(
                        adjv,
                        rank,
                        x,
                        count,
                    ) by {
                        if x != b {
                            let k = choose|k: int| 0 <= k < queue@.len() && queue@[k] == x;
                            assert(k < q1.len());
                            assert(q1[k] == x);
                            assert(q1.contains(x));
                        }
                    }
                    assert(children_in(adj_view(e@), a) =~= children_in(e0, a).push((b, s)));
                    assert forall|x: usize| #[trigger] rank.contains_key(x) && x != a implies children_in(
                        adj_view(e@),
                        x,
                    ) == later_neighbours(adjv[x], rank, rank[x]) by {
                        assert(children_in(adj_view(e@), x) == children_in(e0, x));
                    }
                    assert forall|x: usize, k: int|
                        adj_view(e@).contains_key(x) && 0 <= k < adj_view(e@)[x].len() implies {
                            &&& adjv[x].contains(#[trigger] adj_view(e@)[x][k])
                            &&& (rank.contains_key(adj_view(e@)[x][k].0) && rank[x] < rank[adj_view(
                                e@,
                            )[x][k].0]) || (!seen@.contains(adj_view(e@)[x][k].0)
                                && queue@.contains(adj_view(e@)[x][k].0))
                        } by {
                        if x == a && k == adj_view(e@)[x].len() - 1 {
                        } else {
                            assert(e0.contains_key(x) && 0 <= k < e0[x].len() && adj_view(e@)[x][k]
                                == e0[x][k]);
                        }
                    }
                }
                j = j + 1;
            }
            assert(list@.take(j as int) =~= list@);
        } else {
            assert forall|x: usize| #[trigger] queue@.contains(x) && x != 1 implies listed_below(
                adjv,
                rank,
                x,
                count,
            ) by {
                assert(q0.contains(x)) by {
                    let k = choose|k: int| 0 <= k < queue@.len() && queue@[k] == x;
                    assert(q0[k + 1] == x);
                }
            }
        }
    }
    Ok((e, seen, Ghost(rank), Ghost(count)))
}

/// `t` is the tree that `rank` orients: a declared room is a leaf of its
/// type; any other vertex is a hub whose children are, in order, its
/// neighbours ranked after it, each with the state of the door to it.
pub open spec fn ranked_tree(
    t: Vertex,
    adj: Map<usize, Seq<(usize, bool)>>,
    rank: Map<usize, nat>,
    rooms: Map<usize, RoomType>,
) -> bool
    decreases t,
{
    match t {
        Vertex::Room(id, ty) => rooms.contains_key(id) && rooms[id] == ty,
        Vertex::Hub(id, ch) => {
            &&& !rooms.contains_key(id)
            &&& rank.contains_key(id)
            &&& ch.len() > 0
            &&& ch.len() == later_neighbours(adj[id], rank, rank[id]).len()
            &&& forall|i: int|
                0 <= i < ch.len() ==> (vertex_id(#[trigger] ch[i].0), ch[i].1) == later_neighbours(
                    adj[id],
                    rank,
                    rank[id],
                )[i] && ranked_tree(ch[i].0, adj, rank, rooms)
        },
    }
}

/// Below `a`, through hubs only, lies a hub without a later neighbour: a
/// vertex that is not a declared room and has no neighbour ranked after it.
/// Ranks at or above `bound` are not followed.
pub open spec fn stuck_under(
    adj: Map<usize, Seq<(usize, bool)>>,
    rank: Map<usize, nat>,
    rooms: Map<usize, RoomType>,
    a: usize,
    bound: nat,
) -> bool
    decreases (if rank.contains_key(a) && rank[a] < bound {
        bound - rank[a]
    } else {
        0
    }),
{
    if !(rank.contains_key(a) && rank[a] < bound) || rooms.contains_key(a) {
        false
    } else {
        let later = later_neighbours(adj[a], rank, rank[a]);
        later.len() == 0 || exists|i: int|
            0 <= i < later.len() && rank.contains_key(#[trigger] later[i].0) && rank[a] < rank[later[i].0]
                && rank[later[i].0] < bound && stuck_under(adj, rank, rooms, later[i].0, bound)
    }
}

/// Materializes the subtree under `a`: a declared room becomes a leaf, any
/// other vertex a hub over its oriented children.
fn build_subtree(
    a: usize,
    e: &Adjacency,
    rooms: &BTreeMap<usize, RoomType>,
    Ghost(adj): Ghost<Map<usize, Seq<(usize, bool)>>>,
    Ghost(rank): Ghost<Map<usize, nat>>,
    Ghost(bound): Ghost<nat>,
) -> (r: Result<Vertex, LoadError>)
    requires
        ranked_within(adj_view(e@), adj, rank, bound),
        forall|x: usize|
            #[trigger] rank.contains_key(x) ==> children_in(adj_view(e@), x) == later_neighbours(
                adj[x],
                rank,
                rank[x],
            ),
        rank.contains_key(a),
    ensures
        r matches Ok(t) ==> vertex_id(t) == a && ranked_tree(t, adj, rank, rooms@),
        r matches Err(err) ==> err matches LoadError::MissingAdjacency(_),
        r is Err <==> stuck_under(adj, rank, rooms@, a, bound),
    decreases bound - rank[a],
{
    match rooms.get(&a) {
        Some(room) => Ok(Vertex::Room(a, *room)),
        None => {
            let ghost ev = adj_view(e@);
            let list = match e.get(&a) {
                Some(l) => l,
                None => {
                    assert(children_in(ev, a) == Seq::<(usize, bool)>::empty());
                    return Err(LoadError::MissingAdjacency(a));
                },
            };
            assert(ev.contains_key(a) && ev[a] == list@);
            assert(list@ == later_neighbours(adj[a], rank, rank[a]));
            let mut children: Vec<(Vertex, bool)> = Vec::new();
            let mut j: usize = 0;
            while j < list.len()
                invariant
                    0 <= j <= list.len(),
                    ev == adj_view(e@),
                    ev.contains_key(a) && ev[a] == list@,
                    list@ == later_neighbours(adj[a], rank, rank[a]),
                    ranked_within(ev, adj, rank, bound),
                    rank.contains_key(a),
                    !rooms@.contains_key(a),
                    forall|i: int| 0 <= i < j ==> !stuck_under(adj, rank, rooms@, (#[trigger] list@[i]).0, bound),
                    forall|x: usize|
                        #[trigger] rank.contains_key(x) ==> children_in(ev, x) == later_neighbours(
                            adj[x],
                            rank,
                            rank[x],
                        ),
                    children@.len() == j,
                    forall|i: int|
                        0 <= i < j ==> (vertex_id(#[trigger] children@[i].0), children@[i].1) == list@[i]
                            && ranked_tree(children@[i].0, adj, rank, rooms@),
                decreases list.len() - j,
            {
                let (b, s) = list[j];
                assert(ev[a][j as int] == (b, s));
                assert(rank.contains_key(b) && rank[a] < rank[b] && rank[b] < bound);
                let child = match build_subtree(b, e, rooms, Ghost(adj), Ghost(rank), Ghost(bound)) {
                    Ok(t) => t,
                    Err(err) => {
                        assert(list@[j as int].0 == b);
                        return Err(err);
                    },
                };
                children.push((child, s));
                j = j + 1;
            }
            let t = Vertex::Hub(a, children);
            assert(ranked_tree(t, adj, rank, rooms@));
            assert(!stuck_under(adj, rank, rooms@, a, bound)) by {
                let later = later_neighbours(adj[a], rank, rank[a]);
                assert forall|i: int|
                    0 <= i < later.len() && rank.contains_key(#[trigger] later[i].0) implies !stuck_under(
                    adj,
                    rank,
                    rooms@,
                    later[i].0,
                    bound,
                ) by {
                    assert(later[i] == list@[i]);
                }
            }
            Ok(t)
        },
    }
}

/// Whether `v` is one of the vertex ids `1..=n`.
pub open spec fn in_range(n: usize, v: usize) -> bool {
    1 <= v <= n
}

/// Every edge joins two vertices in `1..=n` and carries a door character.
pub open spec fn edge_entries_valid(n: usize, edges: Seq<(usize, usize, char)>) -> bool {
    forall|i: int|
        0 <= i < edges.len() ==> in_range(n, #[trigger] edges[i].0) && in_range(n, edges[i].1)
            && door_of(edges[i].2) is Some
}

/// There are `n - 1` edges, each valid.
pub open spec fn edges_valid(n: usize, edges: Seq<(usize, usize, char)>) -> bool {
    edges.len() + 1 == n && edge_entries_valid(n, edges)
}

/// Every room declaration names a vertex in `1..=n` and a room type character.
pub open spec fn rooms_valid(n: usize, rooms: Seq<(usize, char)>) -> bool {
    forall|i: int|
        0 <= i < rooms.len() ==> in_range(n, #[trigger] rooms[i].0) && room_type_of(rooms[i].1) is Some
}

/// The edges with their door characters read as states (`O` is open).
pub open spec fn door_edges(edges: Seq<(usize, usize, char)>) -> Seq<(usize, usize, bool)> {
    edges.map_values(|e: (usize, usize, char)| (e.0, e.1, e.2 == 'O'))
}

/// The declared rooms; a later declaration of a vertex replaces an earlier one.
pub open spec fn room_map(rooms: Seq<(usize, char)>) -> Map<usize, RoomType>
    decreases rooms.len(),
{
    if rooms.len() == 0 {
        Map::empty()
    } else {
        let d = rooms.last();
        match room_type_of(d.1) {
            Some(t) => room_map(rooms.drop_last()).insert(d.0, t),
            None => room_map(rooms.drop_last()),
        }
    }
}

/// Every vertex of `1..=n` is ranked.
pub open spec fn all_reached(n: usize, rank: Map<usize, nat>) -> bool {
    forall|v: usize| in_range(n, v) ==> #[trigger] rank.contains_key(v)
}

/// Loads `n` vertices, an undirected edge list `(a, b, door)` and room
/// declarations `(vertex, type)` into the tree rooted at vertex 1.
pub fn load_tree(n: usize, edges: &Vec<(usize, usize, char)>, rooms: &Vec<(usize, char)>) -> (r:
    Result<Vertex, LoadError>)
    ensures
        r matches Err(LoadError::VertexOutOfRange(v)) ==> !in_range(n, v),
        r matches Err(LoadError::BadDoorState(c)) ==> door_of(c) is None,
        r matches Err(LoadError::BadRoomType(c)) ==> room_type_of(c) is None,
        r matches Err(LoadError::EdgeCount(k)) ==> k == edges@.len() && k + 1 != n,
        !(edges_valid(n, edges@) && rooms_valid(n, rooms@)) ==> (r matches Err(err)
            && !(err is MissingAdjacency) && !(err is Unreachable)),
        edges_valid(n, edges@) && rooms_valid(n, rooms@) ==> (r is Ok || r matches Err(
            LoadError::MissingAdjacency(_),
        ) || r matches Err(LoadError::Unreachable(_))),
        r matches Err(LoadError::Unreachable(v)) ==> in_range(n, v) && exists|rank: Map<usize, nat>|
            #[trigger] reach_ranking(rank, adjacency_of(door_edges(edges@))) && !rank.contains_key(v),
        r matches Err(LoadError::MissingAdjacency(v)) ==> (v == 1 && !adjacency_of(
            door_edges(edges@),
        ).contains_key(1)) || exists|rank: Map<usize, nat>|
            #[trigger] reach_ranking(rank, adjacency_of(door_edges(edges@))) && all_reached(n, rank)
                && stuck_under(
                adjacency_of(door_edges(edges@)),
                rank,
                room_map(rooms@),
                1,
                rank.dom().len(),
            ),
        r matches Ok(t) ==> {
            &&& edges_valid(n, edges@)
            &&& rooms_valid(n, rooms@)
            &&& vertex_id(t) == 1
            &&& exists|rank: Map<usize, nat>|
                #[trigger] reach_ranking(rank, adjacency_of(door_edges(edges@))) && all_reached(n, rank)
                    && !stuck_under(
                    adjacency_of(door_edges(edges@)),
                    rank,
                    room_map(rooms@),
                    1,
                    rank.dom().len(),
                ) && ranked_tree(t, adjacency_of(door_edges(edges@)), rank, room_map(rooms@))
        },
        ({
            &&& edges_valid(n, edges@)
            &&& rooms_valid(n, rooms@)
            &&& adjacency_of(door_edges(edges@)).contains_key(1)
            &&& forall|rank: Map<usize, nat>|
                #[trigger] reach_ranking(rank, adjacency_of(door_edges(edges@))) ==> all_reached(n, rank)
                    && !stuck_under(
                    adjacency_of(door_edges(edges@)),
                    rank,
                    room_map(rooms@),
                    1,
                    rank.dom().len(),
                )
        }) ==> r is Ok,
{
    if n == 0 || edges.len() != n - 1 {
        return Err(LoadError::EdgeCount(edges.len()));
    }
    let mut doors: Vec<(usize, usize, bool)> = Vec::new();
    let mut i: usize = 0;
    while i < edges.len()
        invariant
            0 <= i <= edges.len(),
            edges.len() + 1 == n,
            edge_entries_valid(n, edges@.take(i as int)),
            doors@ == door_edges(edges@.take(i as int)),
        decreases edges.len() - i,
    {
        let (a, b, c) = edges[i];
        if a < 1 || a > n {
            return Err(LoadError::VertexOutOfRange(a));
        }
        if b < 1 || b > n {
            return Err(LoadError::VertexOutOfRange(b));
        }
        let open = match parse_door(c) {
            Some(o) => o,
            None => {
                return Err(LoadError::BadDoorState(c));
            },
        };
        doors.push((a, b, open));
        assert(edges@.take(i + 1) =~= edges@.take(i as int).push(edges@[i as int]));
        assert(doors@ =~= door_edges(edges@.take(i + 1)));
        assert forall|j: int| 0 <= j < i + 1 implies in_range(n, #[trigger] edges@.take(i + 1)[j].0)
            && in_range(n, edges@.take(i + 1)[j].1) && door_of(edges@.take(i + 1)[j].2) is Some by {
            if j < i {
                assert(edges@.take(i + 1)[j] == edges@.take(i as int)[j]);
            } else {
                assert(edges@.take(i + 1)[j] == (a, b, c));
            }
        }
        i = i + 1;
    }
    assert(edges@.take(i as int) =~= edges@);
    let mut room_types: BTreeMap<usize, RoomType> = BTreeMap::new();
    let mut k: usize = 0;
    assert(room_types@ =~= room_map(rooms@.take(0)));
    while k < rooms.len()
        invariant
            0 <= k <= rooms.len(),
            edges_valid(n, edges@),
            doors@ == door_edges(edges@),
            rooms_valid(n, rooms@.take(k as int)),
            room_types@ == room_map(rooms@.take(k as int)),
        decreases rooms.len() - k,
    {
        let (a, c) = rooms[k];
        if a < 1 || a > n {
            return Err(LoadError::VertexOutOfRange(a));
        }
        let t = match parse_room_type(c) {
            Some(t) => t,
            None => {
                return Err(LoadError::BadRoomType(c));
            },
        };
        room_types.insert(a, t);
        assert(rooms@.take(k + 1) =~= rooms@.take(k as int).push(rooms@[k as int]));
        assert(rooms@.take(k + 1).drop_last() =~= rooms@.take(k as int));
        assert(room_types@ =~= room_map(rooms@.take(k + 1)));
        assert forall|j: int| 0 <= j < k + 1 implies in_range(n, #[trigger] rooms@.take(k + 1)[j].0)
            && room_type_of(rooms@.take(k + 1)[j].1) is Some by {
            if j < k {
                assert(rooms@.take(k + 1)[j] == rooms@.take(k as int)[j]);
            } else {
                assert(rooms@.take(k + 1)[j] == (a, c));
            }
        }
        k = k + 1;
    }
    assert(rooms@.take(k as int) =~= rooms@);
    let adj = build_adjacency(&doors);
    proof {
        lemma_adjacency_closed(doors@);
    }
    let ghost av = adj_view(adj@);
    let (e, seen, rank, bound) = match orient(&adj) {
        Ok(oriented) => oriented,
        Err(v) => {
            return Err(LoadError::MissingAdjacency(v));
        },
    };
    assert(reach_ranking(rank@, av));
    let mut i: usize = 0;
    while i < n
        invariant
            0 <= i <= n,
            seen@ == rank@.dom(),
            forall|v: usize| 1 <= v <= i ==> #[trigger] rank@.contains_key(v),
            edges_valid(n, edges@),
            rooms_valid(n, rooms@),
            av == adjacency_of(door_edges(edges@)),
            reach_ranking(rank@, av),
        decreases n - i,
    {
        let v = i + 1;
        if !seen.contains(&v) {
            assert(!all_reached(n, rank@));
            return Err(LoadError::Unreachable(v));
        }
        i = i + 1;
    }
    assert(all_reached(n, rank@));
    let r = build_subtree(1, &e, &room_types, Ghost(av), rank, bound);
    r
}

/// Writing an edge `(a, b, s)` as `(b, a, s)` changes neither whether the
/// input is valid nor the adjacency that the tree is loaded from.
pub proof fn lemma_edge_direction_irrelevant(n: usize, edges: Seq<(usize, usize, char)>, i: int)
    requires
        0 <= i < edges.len(),
    ensures
        ({
            let swapped = edges.update(i, (edges[i].1, edges[i].0, edges[i].2));
            &&& edges_valid(n, swapped) == edges_valid(n, edges)
            &&& adjacency_of(door_edges(swapped)) == adjacency_of(door_edges(edges))
        }),
{
    let swapped = edges.update(i, (edges[i].1, edges[i].0, edges[i].2));
    let d = door_edges(edges);
    assert(door_edges(swapped) =~= d.update(i, (d[i].1, d[i].0, d[i].2)));
    lemma_swap_keeps_adjacency(d, i);
    if edges_valid(n, edges) {
        assert forall|j: int| 0 <= j < swapped.len() implies in_range(n, #[trigger] swapped[j].0)
            && in_range(n, swapped[j].1) && door_of(swapped[j].2) is Some by {
            assert(in_range(n, edges[j].0));
        }
    }
    if edges_valid(n, swapped) {
        assert forall|j: int| 0 <= j < edges.len() implies in_range(n, #[trigger] edges[j].0)
            && in_range(n, edges[j].1) && door_of(edges[j].2) is Some by {
            assert(in_range(n, swapped[j].0));
        }
    }
}

} // verus!

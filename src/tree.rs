use vstd::prelude::*;

verus! {

broadcast use vstd::std_specs::vec::group_vec_axioms;

/// What a room asks of the path that leads to it.
#[derive(Clone, Copy, Debug, PartialEq, Eq, Structural)]
pub enum RoomType {
    /// The path must end up open.
    Programmers,
    /// The path must end up closed.
    Managers,
    /// No requirement.
    Empty,
}

/// What a subtree demands of the door that connects it to its parent.
#[derive(Clone, Copy, Debug, PartialEq, Eq, Structural)]
pub enum Need {
    NoNeed,
    NeedOpen,
    NeedClosed,
}

/// A node of the rooted tree: a room (leaf) or a hub that owns its children,
/// each paired with the state of the door to it (`true` = open).
#[derive(Debug, PartialEq, Eq)]
pub enum Vertex {
    Room(usize, RoomType),
    Hub(usize, Vec<(Vertex, bool)>),
}

/// The id of a node.
pub open spec fn vertex_id(v: Vertex) -> usize {
    match v {
        Vertex::Room(id, _) => id,
        Vertex::Hub(id, _) => id,
    }
}

/// The need of a room by itself.
pub open spec fn room_need(t: RoomType) -> Need {
    match t {
        RoomType::Programmers => Need::NeedOpen,
        RoomType::Managers => Need::NeedClosed,
        RoomType::Empty => Need::NoNeed,
    }
}

/// Cost of one door given whether it should end up open.
pub open spec fn door_cost(open: bool, want_open: bool) -> nat {
    if open == want_open {
        0
    } else {
        1
    }
}

/// Folds the door to a child into the child's (need, cost) pair, as seen by
/// a hub that is the global root or not.
pub open spec fn fold_door(need: Need, inner: nat, open: bool, root: bool) -> (Need, nat) {
    match need {
        Need::NoNeed => (Need::NoNeed, 0),
        Need::NeedClosed => if root {
            (Need::NeedClosed, door_cost(open, false))
        } else {
            (Need::NeedOpen, inner + door_cost(open, false))
        },
        Need::NeedOpen => (Need::NeedOpen, inner + door_cost(open, true)),
    }
}

/// The aggregate need after one more folded child: the latest need that is not
/// `NoNeed`, except that `NeedOpen`, once reached, stays.
pub open spec fn next_need(agg: Need, folded: Need) -> Need {
    if agg == Need::NeedOpen || folded == Need::NoNeed {
        agg
    } else {
        folded
    }
}

/// Number of children of a hub; 0 for a room.
pub open spec fn child_count(v: Vertex) -> int {
    match v {
        Vertex::Room(_, _) => 0,
        Vertex::Hub(_, ch) => ch.len() as int,
    }
}

/// The aggregate need and the open and closed bucket sums of a hub over its
/// first `k` children.
pub open spec fn hub_fold(v: Vertex, root: bool, k: int) -> (Need, nat, nat)
    decreases v, k,
{
    match v {
        Vertex::Room(_, _) => (Need::NoNeed, 0, 0),
        Vertex::Hub(_, ch) => if k <= 0 || k > ch.len() {
            (Need::NoNeed, 0, 0)
        } else {
            let acc = hub_fold(v, root, k - 1);
            let inner = changes_of(ch[k - 1].0, false);
            let f = fold_door(inner.0, inner.1, ch[k - 1].1, root);
            let agg = next_need(acc.0, f.0);
            match f.0 {
                Need::NoNeed => (agg, acc.1, acc.2),
                Need::NeedOpen => (agg, acc.1 + f.1, acc.2),
                Need::NeedClosed => (agg, acc.1, acc.2 + f.1),
            }
        },
    }
}

/// The (need, toggle count) pair of a node evaluated as the global root or not.
pub open spec fn changes_of(v: Vertex, root: bool) -> (Need, nat)
    decreases v, child_count(v) + 1,
{
    match v {
        Vertex::Room(_, t) => (room_need(t), 0),
        Vertex::Hub(_, ch) => {
            let acc = hub_fold(v, root, ch.len() as int);
            match acc.0 {
                Need::NoNeed => (Need::NoNeed, 0),
                Need::NeedOpen => (Need::NeedOpen, acc.1 + acc.2),
                Need::NeedClosed => (Need::NeedClosed, 0),
            }
        },
    }
}

/// The (need, cost) pair that child `i` of a hub folds to with its door.
pub open spec fn folded_child(v: Vertex, root: bool, i: int) -> (Need, nat) {
    match v {
        Vertex::Room(_, _) => (Need::NoNeed, 0),
        Vertex::Hub(_, ch) => {
            let inner = changes_of(ch[i].0, false);
            fold_door(inner.0, inner.1, ch[i].1, root)
        },
    }
}

/// Some child among the first `k` folds to `need`.
pub open spec fn some_child_folds_to(v: Vertex, root: bool, k: int, need: Need) -> bool {
    exists|i: int| 0 <= i < k && (#[trigger] folded_child(v, root, i)).0 == need
}

/// The sum of the folded costs of the first `k` children.
pub open spec fn folded_cost_sum(v: Vertex, root: bool, k: int) -> nat
    decreases k,
{
    if k <= 0 {
        0
    } else {
        folded_cost_sum(v, root, k - 1) + folded_child(v, root, k - 1).1
    }
}

/// A hub needs its door open when some child folds to an open need, else
/// closed when some child folds to a closed need, else nothing; it costs the
/// sum of its children's folded costs when it needs open, and nothing
/// otherwise.
pub proof fn lemma_hub_changes_direct(v: Vertex, root: bool)
    requires
        v is Hub,
    ensures
        changes_of(v, root).0 == (if some_child_folds_to(v, root, child_count(v), Need::NeedOpen) {
            Need::NeedOpen
        } else if some_child_folds_to(v, root, child_count(v), Need::NeedClosed) {
            Need::NeedClosed
        } else {
            Need::NoNeed
        }),
        changes_of(v, root).1 == (if some_child_folds_to(v, root, child_count(v), Need::NeedOpen) {
            folded_cost_sum(v, root, child_count(v))
        } else {
            0
        }),
{
    lemma_hub_fold_direct(v, root, child_count(v));
}

proof fn lemma_hub_fold_direct(v: Vertex, root: bool, k: int)
    requires
        v is Hub,
        0 <= k <= child_count(v),
    ensures
        hub_fold(v, root, k).0 == (if some_child_folds_to(v, root, k, Need::NeedOpen) {
            Need::NeedOpen
        } else if some_child_folds_to(v, root, k, Need::NeedClosed) {
            Need::NeedClosed
        } else {
            Need::NoNeed
        }),
        hub_fold(v, root, k).1 + hub_fold(v, root, k).2 == folded_cost_sum(v, root, k),
    decreases k,
{
    if k > 0 {
        lemma_hub_fold_direct(v, root, k - 1);
        let f = folded_child(v, root, k - 1);
        assert forall|need: Need|
            some_child_folds_to(v, root, k, need) == (some_child_folds_to(v, root, k - 1, need) || f.0
                == need) by {
            if some_child_folds_to(v, root, k, need) && f.0 != need {
                let i = choose|i: int| 0 <= i < k && (#[trigger] folded_child(v, root, i)).0 == need;
                assert(i < k - 1);
            }
            if f.0 == need {
                assert(folded_child(v, root, k - 1).0 == need);
            }
        }
    }
}

/// Number of nodes over the first `k` children subtrees of a hub.
pub open spec fn size_upto(v: Vertex, k: int) -> nat
    decreases v, k,
{
    match v {
        Vertex::Room(_, _) => 0,
        Vertex::Hub(_, ch) => if k <= 0 || k > ch.len() {
            0
        } else {
            size_upto(v, k - 1) + size_of(ch[k - 1].0)
        },
    }
}

/// Number of nodes in a tree.
pub open spec fn size_of(v: Vertex) -> nat
    decreases v, child_count(v) + 1,
{
    match v {
        Vertex::Room(_, _) => 1,
        Vertex::Hub(_, ch) => 1 + size_upto(v, ch.len() as int),
    }
}

proof fn lemma_size_upto_mono(v: Vertex, i: int, j: int)
    requires
        0 <= i <= j <= child_count(v),
    ensures
        size_upto(v, i) <= size_upto(v, j),
    decreases j - i,
{
    if i < j {
        lemma_size_upto_mono(v, i, j - 1);
    }
}

/// Each node adds at most one toggle: the count stays below the tree's size.
pub proof fn lemma_changes_below_size(v: Vertex, root: bool)
    ensures
        changes_of(v, root).1 < size_of(v),
    decreases v, child_count(v) + 1,
{
    if let Vertex::Hub(_, ch) = v {
        lemma_buckets_below_size(v, root, ch.len() as int);
    }
}

proof fn lemma_buckets_below_size(v: Vertex, root: bool, k: int)
    requires
        0 <= k <= child_count(v),
    ensures
        hub_fold(v, root, k).1 + hub_fold(v, root, k).2 <= size_upto(v, k),
    decreases v, k,
{
    if let Vertex::Hub(_, ch) = v {
        if k > 0 {
            lemma_buckets_below_size(v, root, k - 1);
            lemma_changes_below_size(ch[k - 1].0, false);
        }
    }
}

impl Vertex {
    /// The (need, toggle count) pair of this node, evaluated as the global root
    /// when `root` holds.
    pub fn changes(&self, root: bool) -> (r: (Need, usize))
        requires
            size_of(*self) <= usize::MAX,
        ensures
            r.0 == changes_of(*self, root).0,
            r.1 as nat == changes_of(*self, root).1,
        decreases self,
    {
        match self {
            Vertex::Room(_, room_type) => match room_type {
                RoomType::Programmers => (Need::NeedOpen, 0),
                RoomType::Managers => (Need::NeedClosed, 0),
                RoomType::Empty => (Need::NoNeed, 0),
            },
            Vertex::Hub(_, neighbors) => {
                let mut need = Need::NoNeed;
                let mut open_changes: usize = 0;
                let mut close_changes: usize = 0;
                let mut i: usize = 0;
                while i < neighbors.len()
                    invariant
                        0 <= i <= neighbors.len(),
                        *self matches Vertex::Hub(_, ch) && ch == *neighbors,
                        size_of(*self) <= usize::MAX,
                        hub_fold(*self, root, i as int) == (need, open_changes as nat, close_changes as nat),
                    decreases neighbors.len() - i,
                {
                    proof {
                        lemma_size_upto_mono(*self, i + 1, neighbors.len() as int);
                        lemma_buckets_below_size(*self, root, i + 1);
                    }
                    let (subtree, open) = &neighbors[i];
                    let (inner_need, inner_changes) = subtree.changes(false);
                    proof {
                        lemma_changes_below_size(*subtree, false);
                    }
                    let (folded, cost) = match inner_need {
                        Need::NoNeed => (Need::NoNeed, 0),
                        Need::NeedClosed => if root {
                            (Need::NeedClosed, if *open { 1 } else { 0 })
                        } else {
                            (Need::NeedOpen, inner_changes + if *open { 1 } else { 0 })
                        },
                        Need::NeedOpen => (Need::NeedOpen, inner_changes + if *open { 0 } else { 1 }),
                    };
                    if need != Need::NeedOpen && folded != Need::NoNeed {
                        need = folded;
                    }
                    match folded {
                        Need::NoNeed => {},
                        Need::NeedOpen => {
                            open_changes = open_changes + cost;
                        },
                        Need::NeedClosed => {
                            close_changes = close_changes + cost;
                        },
                    }
                    i = i + 1;
                }
                proof {
                    lemma_buckets_below_size(*self, root, i as int);
                }
                match need {
                    Need::NoNeed => (Need::NoNeed, 0),
                    Need::NeedOpen => (Need::NeedOpen, open_changes + close_changes),
                    Need::NeedClosed => (Need::NeedClosed, 0),
                }
            },
        }
    }
}

/// Whether every room among the first `k` children subtrees of a hub is empty.
pub open spec fn empty_upto(v: Vertex, k: int) -> bool
    decreases v, k,
{
    match v {
        Vertex::Room(_, _) => true,
        Vertex::Hub(_, ch) => if k <= 0 || k > ch.len() {
            true
        } else {
            empty_upto(v, k - 1) && all_rooms_empty(ch[k - 1].0)
        },
    }
}

/// Whether every room of the tree is `Empty`.
pub open spec fn all_rooms_empty(v: Vertex) -> bool
    decreases v, child_count(v) + 1,
{
    match v {
        Vertex::Room(_, t) => t == RoomType::Empty,
        Vertex::Hub(_, ch) => empty_upto(v, ch.len() as int),
    }
}

/// A tree whose rooms are all `Empty` needs nothing and costs nothing,
/// whether it is evaluated as the global root or not.
pub proof fn lemma_all_empty_costs_nothing(v: Vertex, root: bool)
    requires
        all_rooms_empty(v),
    ensures
        changes_of(v, root) == (Need::NoNeed, 0nat),
    decreases v, child_count(v) + 1,
{
    if let Vertex::Hub(_, ch) = v {
        lemma_all_empty_fold(v, root, ch.len() as int);
    }
}

proof fn lemma_all_empty_fold(v: Vertex, root: bool, k: int)
    requires
        0 <= k <= child_count(v),
        empty_upto(v, k),
    ensures
        hub_fold(v, root, k) == (Need::NoNeed, 0nat, 0nat),
    decreases v, k,
{
    if let Vertex::Hub(_, ch) = v {
        if k > 0 {
            lemma_all_empty_fold(v, root, k - 1);
            lemma_all_empty_costs_nothing(ch[k - 1].0, false);
        }
    }
}

impl Vertex {
    /// Number of nodes of the tree, or `None` where it exceeds `usize::MAX`.
    pub fn node_count(&self) -> (r: Option<usize>)
        ensures
            r matches Some(c) ==> c as nat == size_of(*self),
            r is None ==> size_of(*self) > usize::MAX,
        decreases self,
    {
        match self {
            Vertex::Room(_, _) => Some(1),
            Vertex::Hub(_, neighbors) => {
                let mut total: usize = 1;
                let mut i: usize = 0;
                while i < neighbors.len()
                    invariant
                        0 <= i <= neighbors.len(),
                        *self matches Vertex::Hub(_, ch) && ch == *neighbors,
                        total as nat == 1 + size_upto(*self, i as int),
                    decreases neighbors.len() - i,
                {
                    let sub = match neighbors[i].0.node_count() {
                        Some(c) => c,
                        None => {
                            proof {
                                lemma_size_upto_mono(*self, i + 1, neighbors.len() as int);
                            }
                            return None;
                        },
                    };
                    match total.checked_add(sub) {
                        Some(t) => {
                            total = t;
                        },
                        None => {
                            proof {
                                lemma_size_upto_mono(*self, i + 1, neighbors.len() as int);
                            }
                            return None;
                        },
                    }
                    i = i + 1;
                }
                Some(total)
            },
        }
    }

    /// The minimum number of door toggles for the whole tree: the count of
    /// this node evaluated as the global root. `None` only where the tree has
    /// more than `usize::MAX` nodes.
    pub fn min_toggles(&self) -> (r: Option<usize>)
        ensures
            r matches Some(c) ==> c as nat == changes_of(*self, true).1,
            r is None <==> size_of(*self) > usize::MAX,
    {
        match self.node_count() {
            Some(_) => Some(self.changes(true).1),
            None => None,
        }
    }
}

} // verus!

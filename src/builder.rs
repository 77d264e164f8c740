use vstd::prelude::*;
use std::collections::HashMap;
use crate::menu::{MenuItem, RawMenuItem, Tree, forest_of, append_at, width_at, path_leads, append_child};

verus! {

broadcast use vstd::std_specs::hash::group_hash_axioms;

/// The state of a build, as mathematics: the forest so far, the path of
/// every placed id, the nodes waiting for each parent id that has no node
/// yet, and the pool path of every node that waits (its first index is the
/// pool key, the rest leads through the trees waiting under that key).
pub struct BuildModel {
    pub forest: Seq<Tree>,
    pub placed: Map<usize, Seq<usize>>,
    pub holding: Map<usize, Seq<Tree>>,
    pub pooled: Map<usize, Seq<usize>>,
}

/// `m` with the path of `t` and of each of its descendants recorded, `t`
/// standing at `path`.
pub open spec fn index_tree(m: Map<usize, Seq<usize>>, t: Tree, path: Seq<usize>) -> Map<
    usize,
    Seq<usize>,
>
    decreases t, 0int,
{
    index_forest(m.insert(t.id, path), t.children, path, 0)
}

/// `m` with the paths recorded of `ts[i..]` and their descendants, `ts`
/// being the children of the node at `path`. Positions are machine indices:
/// none lies past `usize::MAX`.
pub open spec fn index_forest(m: Map<usize, Seq<usize>>, ts: Seq<Tree>, path: Seq<usize>, i: int) -> Map<
    usize,
    Seq<usize>,
>
    decreases ts, ts.len() - i,
{
    if 0 <= i < ts.len() && i <= usize::MAX {
        index_forest(index_tree(m, ts[i], path.push(i as usize)), ts, path, i + 1)
    } else {
        m
    }
}

/// The nodes waiting in `h` for `id`, none when there are none.
pub open spec fn held(h: Map<usize, Seq<Tree>>, id: usize) -> Seq<Tree> {
    if h.contains_key(id) {
        h[id]
    } else {
        Seq::empty()
    }
}

/// The node that `it` becomes: it takes as children what waits for its id.
pub open spec fn node_of(s: BuildModel, it: RawMenuItem) -> Tree {
    Tree { id: it.id, name: it.name@, url: it.url@, children: held(s.holding, it.id) }
}

/// `s` with `node` appended to the children of the node that `path` leads
/// to (the top level when `path` is empty), its path and those of its
/// descendants recorded, and `holding` as the new holding pool. A position
/// past `usize::MAX` cannot be indexed: there the node is not taken.
pub open spec fn place(s: BuildModel, path: Seq<usize>, node: Tree, holding: Map<usize, Seq<Tree>>) -> BuildModel {
    let w = width_at(s.forest, path);
    if w <= usize::MAX {
        BuildModel {
            forest: append_at(s.forest, path, node),
            placed: index_tree(s.placed, node, path.push(w as usize)),
            holding,
            pooled: s.pooled,
        }
    } else {
        BuildModel { holding, ..s }
    }
}

/// Whether the pool path `q` leads to a node waiting in `s`.
pub open spec fn pool_path_leads(s: BuildModel, q: Seq<usize>) -> bool {
    q.len() > 0 && s.holding.contains_key(q[0]) && path_leads(s.holding[q[0]], q.drop_first())
}

/// `s` with `node` waiting for `p`: appended to the children of `p`'s node
/// where that node itself waits in the pool, else to the list under key `p`.
/// Its pool path and those of its descendants are recorded.
pub open spec fn pool(s: BuildModel, node: Tree, p: usize) -> BuildModel {
    if s.pooled.contains_key(p) && pool_path_leads(s, s.pooled[p]) {
        let q = s.pooled[p];
        let list = s.holding[q[0]];
        let w = width_at(list, q.drop_first());
        if w <= usize::MAX {
            BuildModel {
                holding: s.holding.insert(q[0], append_at(list, q.drop_first(), node)),
                pooled: index_tree(s.pooled, node, q.push(w as usize)),
                ..s
            }
        } else {
            s
        }
    } else {
        let list = held(s.holding, p);
        BuildModel {
            holding: s.holding.insert(p, list.push(node)),
            pooled: index_tree(s.pooled, node, seq![p, list.len() as usize]),
            ..s
        }
    }
}

/// One item processed: a root is appended to the top level; an item whose
/// parent is placed is appended to that parent's children; an item whose
/// parent waits in the pool is appended to that waiting node's children; any
/// other waits in the pool under its parent's id. Every node placed has its
/// path, and those of its descendants, recorded.
pub open spec fn step(s: BuildModel, it: RawMenuItem) -> BuildModel {
    let node = node_of(s, it);
    let holding = s.holding.remove(it.id);
    match it.parent_id {
        None => place(s, Seq::empty(), node, holding),
        Some(p) => if s.placed.contains_key(p) {
            if path_leads(s.forest, s.placed[p]) {
                place(s, s.placed[p], node, holding)
            } else {
                BuildModel { holding, ..s }
            }
        } else {
            pool(BuildModel { holding, ..s }, node, p)
        },
    }
}

/// The state before any item: nothing built, placed or waiting.
pub open spec fn empty_model() -> BuildModel {
    BuildModel {
        forest: Seq::empty(),
        placed: Map::empty(),
        holding: Map::empty(),
        pooled: Map::empty(),
    }
}

/// The state after the first `n` items.
pub open spec fn run(items: Seq<RawMenuItem>, n: nat) -> BuildModel
    decreases n,
{
    if n == 0 || n > items.len() {
        empty_model()
    } else {
        step(run(items, (n - 1) as nat), items[n - 1])
    }
}

/// The forest that `items` build.
pub open spec fn build_spec(items: Seq<RawMenuItem>) -> Seq<Tree> {
    run(items, items.len()).forest
}

/// The placed index with each path as a sequence.
pub open spec fn paths_of(m: Map<usize, Vec<usize>>) -> Map<usize, Seq<usize>> {
    m.map_values(|v: Vec<usize>| v@)
}

/// The holding pool with each waiting list as a forest.
pub open spec fn holding_of(m: Map<usize, Vec<MenuItem>>) -> Map<usize, Seq<Tree>> {
    m.map_values(|v: Vec<MenuItem>| forest_of(v@))
}

/// The builder's state: the forest under construction, the placed index
/// (id to path), the holding pool (parent id to waiting nodes) and the pool
/// index (id of a waiting node to its pool path).
pub struct Result {
    pub nodes_map: HashMap<usize, Vec<usize>>,
    pub nodes: Vec<MenuItem>,
    pub holding_nodes: HashMap<usize, Vec<MenuItem>>,
    pub pooled_map: HashMap<usize, Vec<usize>>,
}

impl Result {
    /// The state that this builder holds.
    pub open spec fn model(&self) -> BuildModel {
        BuildModel {
            forest: forest_of(self.nodes@),
            placed: paths_of(self.nodes_map@),
            holding: holding_of(self.holding_nodes@),
            pooled: paths_of(self.pooled_map@),
        }
    }

    /// An empty forest, with nothing placed and nothing waiting.
    pub fn new() -> (r: Self)
        ensures
            r.model() == empty_model(),
    {
        let r = Result {
            nodes_map: HashMap::new(),
            nodes: Vec::new(),
            holding_nodes: HashMap::new(),
            pooled_map: HashMap::new(),
        };
        assert(r.model().forest =~= Seq::empty());
        assert(r.model().placed =~= Map::empty());
        assert(r.model().holding =~= Map::empty());
        assert(r.model().pooled =~= Map::empty());
        r
    }
}

/// A copy of `path`.
fn copy_path(path: &Vec<usize>) -> (r: Vec<usize>)
    ensures
        r@ == path@,
{
    let mut r: Vec<usize> = Vec::new();
    let mut j: usize = 0;
    while j < path.len()
        invariant
            j <= path@.len(),
            r@ == path@.subrange(0, j as int),
        decreases path@.len() - j,
    {
        r.push(path[j]);
        j = j + 1;
        assert(r@ =~= path@.subrange(0, j as int));
    }
    assert(path@.subrange(0, path@.len() as int) =~= path@);
    r
}

/// `path` with `i` appended, as a new vector.
fn extended(path: &Vec<usize>, i: usize) -> (r: Vec<usize>)
    ensures
        r@ == path@.push(i),
{
    let mut r = copy_path(path);
    r.push(i);
    r
}

/// Records in `map` the path of `node`, standing at `path`, and the paths of
/// all its descendants.
fn index_node(map: &mut HashMap<usize, Vec<usize>>, node: &MenuItem, path: Vec<usize>)
    ensures
        paths_of(final(map)@) == index_tree(paths_of(old(map)@), node.tree(), path@),
    decreases node,
{
    let ghost t = node.tree();
    let mut i: usize = 0;
    let ghost target = index_tree(paths_of(map@), t, path@);
    let ghost p = path@;
    let own = copy_path(&path);
    let ghost m0 = paths_of(map@);
    map.insert(node.id, path);
    assert(paths_of(map@) =~= m0.insert(t.id, p));
    assert(t.children =~= forest_of(node.children@));
    while i < node.children.len()
        invariant
            i <= node.children@.len(),
            own@ == p,
            t == node.tree(),
            t.children == forest_of(node.children@),
            index_forest(paths_of(map@), t.children, p, i as int) == target,
        decreases node.children@.len() - i,
    {
        let child_path = extended(&own, i);
        index_node(map, &node.children[i], child_path);
        assert(t.children[i as int] == node.children@[i as int].tree());
        i = i + 1;
    }
}

/// How many children the node that `path[k..]` leads to in `nodes` has; the
/// top level's length when the path is empty, `None` when it leads nowhere.
fn child_count(nodes: &Vec<MenuItem>, path: &Vec<usize>, k: usize) -> (r: Option<usize>)
    requires
        k <= path@.len(),
    ensures
        r is Some <==> path_leads(forest_of(nodes@), path@.subrange(k as int, path@.len() as int)),
        r is Some ==> r->0 == width_at(
            forest_of(nodes@),
            path@.subrange(k as int, path@.len() as int),
        ),
    decreases path@.len() - k,
{
    let ghost rest = path@.subrange(k as int, path@.len() as int);
    if k == path.len() {
        return Some(nodes.len());
    }
    let i = path[k];
    assert(rest.drop_first() =~= path@.subrange(k + 1, path@.len() as int));
    if i >= nodes.len() {
        return None;
    }
    assert(forest_of(nodes@)[i as int].children =~= forest_of(nodes@[i as int].children@));
    child_count(&nodes[i].children, path, k + 1)
}

/// Places `new_node` as the last child of the node of `parent_id`, recording
/// its path and those of its descendants. Nothing changes when `parent_id`
/// is not placed, and the node is dropped when its recorded path leads
/// nowhere.
fn add_to_parent(result: &mut Result, new_node: MenuItem, parent_id: usize)
    ensures
        final(result).model().holding == old(result).model().holding,
        final(result).model().pooled == old(result).model().pooled,
        ({
            let s = old(result).model();
            let t = final(result).model();
            if s.placed.contains_key(parent_id) && path_leads(s.forest, s.placed[parent_id]) {
                let path = s.placed[parent_id];
                &&& width_at(s.forest, path) <= usize::MAX
                &&& t.forest == append_at(s.forest, path, new_node.tree())
                &&& t.placed == index_tree(
                    s.placed,
                    new_node.tree(),
                    path.push(width_at(s.forest, path) as usize),
                )
            } else {
                t.forest == s.forest && t.placed == s.placed
            }
        }),
{
    let ghost s = result.model();
    let path_vec = match result.nodes_map.get(&parent_id) {
        Some(path) => copy_path(path),
        None => return,
    };
    assert(s.placed.contains_key(parent_id));
    assert(path_vec@ == s.placed[parent_id]);
    assert(path_vec@.subrange(0, path_vec@.len() as int) =~= path_vec@);
    match child_count(&result.nodes, &path_vec, 0) {
        Some(width) => {
            let new_path = extended(&path_vec, width);
            index_node(&mut result.nodes_map, &new_node, new_path);
            append_child(&mut result.nodes, &path_vec, 0, new_node);
        },
        None => {},
    }
}

/// Puts `new_node` in the pool to wait for `parent_id`: under the node of
/// `parent_id` where that node waits in the pool, else at the end of the list
/// under key `parent_id`. Records the pool paths of the node and its
/// descendants.
fn add_to_pool(result: &mut Result, new_node: MenuItem, parent_id: usize)
    ensures
        final(result).model() == pool(old(result).model(), new_node.tree(), parent_id),
{
    let ghost s = result.model();
    let ghost t = new_node.tree();
    let found = match result.pooled_map.get(&parent_id) {
        Some(q) => Some(copy_path(q)),
        None => None,
    };
    if let Some(q) = found {
        assert(s.pooled.contains_key(parent_id) && q@ == s.pooled[parent_id]);
        if q.len() > 0 {
            let key = q[0];
            let ghost h0 = result.holding_nodes@;
            let taken = result.holding_nodes.remove(&key);
            if let Some(mut list) = taken {
                assert(q@.subrange(1, q@.len() as int) =~= q@.drop_first());
                assert(s.holding.contains_key(key) && s.holding[key] == forest_of(list@));
                match child_count(&list, &q, 1) {
                    Some(w) => {
                        let new_path = extended(&q, w);
                        index_node(&mut result.pooled_map, &new_node, new_path);
                        append_child(&mut list, &q, 1, new_node);
                        let ghost l1 = list@;
                        result.holding_nodes.insert(key, list);
                        assert(holding_of(result.holding_nodes@) =~= s.holding.insert(
                            key,
                            append_at(s.holding[key], q@.drop_first(), t),
                        ));
                        return;
                    },
                    None => {
                        result.holding_nodes.insert(key, list);
                        assert(result.holding_nodes@ =~= h0);
                    },
                }
            } else {
                assert(result.holding_nodes@ =~= h0);
            }
        }
    }
    assert(!(s.pooled.contains_key(parent_id) && pool_path_leads(s, s.pooled[parent_id])));
    let ghost h1 = s.holding;
    let mut waiting = match result.holding_nodes.remove(&parent_id) {
        Some(v) => v,
        None => Vec::new(),
    };
    assert(forest_of(waiting@) =~= held(h1, parent_id));
    let entry_path = vec![parent_id, waiting.len()];
    assert(entry_path@ =~= seq![parent_id, held(h1, parent_id).len() as usize]);
    index_node(&mut result.pooled_map, &new_node, entry_path);
    waiting.push(new_node);
    assert(forest_of(waiting@) =~= held(h1, parent_id).push(t));
    result.holding_nodes.insert(parent_id, waiting);
    assert(holding_of(result.holding_nodes@) =~= h1.insert(
        parent_id,
        held(h1, parent_id).push(t),
    ));
}

/// Processes the item at `position` and returns the position of the next;
/// past the end of `items` nothing changes.
fn walk(result: &mut Result, position: usize, items: &Vec<RawMenuItem>) -> (r: usize)
    ensures
        position < items@.len() ==> r == position + 1 && final(result).model() == step(
            old(result).model(),
            items@[position as int],
        ),
        position >= items@.len() ==> r == position && *final(result) == *old(result),
{
    if position >= items.len() {
        return position;
    }
    let working_item = &items[position];
    let ghost s = result.model();
    let held_nodes = result.holding_nodes.remove(&working_item.id);
    assert(holding_of(result.holding_nodes@) =~= s.holding.remove(working_item.id));
    let new_node = MenuItem::new(
        working_item.id,
        working_item.name.clone(),
        working_item.url.clone(),
        held_nodes,
    );
    assert(new_node.tree().children =~= node_of(s, *working_item).children);
    match working_item.parent_id {
        None => {
            let root_path = vec![result.nodes.len()];
            index_node(&mut result.nodes_map, &new_node, root_path);
            result.nodes.push(new_node);
            assert(root_path@ =~= Seq::<usize>::empty().push(s.forest.len() as usize));
            assert(forest_of(result.nodes@) =~= s.forest.push(new_node.tree()));
            assert(width_at(s.forest, Seq::empty()) == s.forest.len());
            assert(append_at(s.forest, Seq::empty(), new_node.tree()) == s.forest.push(new_node.tree()));
        },
        Some(parent_id) => {
            if result.nodes_map.contains_key(&parent_id) {
                add_to_parent(result, new_node, parent_id);
            } else {
                add_to_pool(result, new_node, parent_id);
            }
        },
    }
    position + 1
}

/// Builds the forest of `items`, processing them in order.
pub fn build(items: &Vec<RawMenuItem>) -> (r: Vec<MenuItem>)
    ensures
        forest_of(r@) == build_spec(items@),
{
    let mut result = Result::new();
    let mut position: usize = 0;
    while position < items.len()
        invariant
            position <= items@.len(),
            result.model() == run(items@, position as nat),
        decreases items@.len() - position,
    {
        position = walk(&mut result, position, items);
    }
    result.nodes
}

/// The forest of a decoded item list; the empty forest when the input could
/// not be decoded (`None`).
pub fn build_menu(decoded: Option<Vec<RawMenuItem>>) -> (r: Vec<MenuItem>)
    ensures
        match decoded {
            Some(items) => forest_of(r@) == build_spec(items@),
            None => r@.len() == 0,
        },
{
    match decoded {
        Some(items) => build(&items),
        None => Vec::new(),
    }
}

} // verus!

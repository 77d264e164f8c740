use vstd::prelude::*;
use vstd::multiset::Multiset;
use crate::builder::{
    BuildModel, build_spec, held, index_forest, index_tree, node_of, pool_path_leads, run, step,
};
use crate::menu::{RawMenuItem, Tree, append_at, children_at, id_at, path_leads, width_at};

verus! {

/// The ids of a tree, each node counted once.
pub open spec fn tree_ids(t: Tree) -> Multiset<usize>
    decreases t, 0int,
{
    Multiset::singleton(t.id).add(forest_ids_upto(t.children, t.children.len() as int))
}

/// The ids of the first `n` trees of `f`.
pub open spec fn forest_ids_upto(f: Seq<Tree>, n: int) -> Multiset<usize>
    decreases f, n,
{
    if 0 < n <= f.len() {
        forest_ids_upto(f, n - 1).add(tree_ids(f[n - 1]))
    } else {
        Multiset::empty()
    }
}

/// The ids of a forest, each node counted once.
pub open spec fn forest_ids(f: Seq<Tree>) -> Multiset<usize> {
    forest_ids_upto(f, f.len() as int)
}

proof fn lemma_upto_push(f: Seq<Tree>, c: Tree, n: int)
    requires
        0 <= n <= f.len(),
    ensures
        forest_ids_upto(f.push(c), n) == forest_ids_upto(f, n),
    decreases n,
{
    if n > 0 {
        lemma_upto_push(f, c, n - 1);
        assert(f.push(c)[n - 1] == f[n - 1]);
    }
}

proof fn lemma_ids_push(f: Seq<Tree>, c: Tree)
    ensures
        forest_ids(f.push(c)) == forest_ids(f).add(tree_ids(c)),
{
    lemma_upto_push(f, c, f.len() as int);
    assert(f.push(c)[f.len() as int] == c);
}

proof fn lemma_upto_update(f: Seq<Tree>, i: int, t: Tree, n: int)
    requires
        0 <= i < f.len(),
        0 <= n <= f.len(),
    ensures
        n <= i ==> forest_ids_upto(f.update(i, t), n) == forest_ids_upto(f, n),
        n > i ==> forest_ids_upto(f.update(i, t), n).add(tree_ids(f[i])) =~= forest_ids_upto(
            f,
            n,
        ).add(tree_ids(t)),
    decreases n,
{
    if n > 0 {
        lemma_upto_update(f, i, t, n - 1);
        let g = f.update(i, t);
        assert(forest_ids_upto(g, n) == forest_ids_upto(g, n - 1).add(tree_ids(g[n - 1])));
        assert(forest_ids_upto(f, n) == forest_ids_upto(f, n - 1).add(tree_ids(f[n - 1])));
        if n - 1 == i {
            assert(forest_ids_upto(g, n).add(tree_ids(f[i])) =~= forest_ids_upto(f, n).add(
                tree_ids(t),
            ));
        } else if n - 1 > i {
            assert(g[n - 1] == f[n - 1]);
            let a = forest_ids_upto(g, n - 1);
            let b = forest_ids_upto(f, n - 1);
            assert(a.add(tree_ids(f[i])) == b.add(tree_ids(t)));
            assert forall|x: usize|
                #[trigger] forest_ids_upto(g, n).add(tree_ids(f[i])).count(x) == forest_ids_upto(
                    f,
                    n,
                ).add(tree_ids(t)).count(x) by {
                assert(a.add(tree_ids(f[i])).count(x) == b.add(tree_ids(t)).count(x));
            }
            assert(forest_ids_upto(g, n).add(tree_ids(f[i])) =~= forest_ids_upto(f, n).add(
                tree_ids(t),
            ));
        } else {
            assert(g[n - 1] == f[n - 1]);
        }
    }
}

proof fn lemma_ids_append(f: Seq<Tree>, path: Seq<usize>, c: Tree)
    ensures
        path_leads(f, path) ==> forest_ids(append_at(f, path, c)) =~= forest_ids(f).add(
            tree_ids(c),
        ),
        !path_leads(f, path) ==> append_at(f, path, c) == f,
    decreases path.len(),
{
    if path.len() == 0 {
        lemma_ids_push(f, c);
    } else if path[0] < f.len() {
        let i = path[0] as int;
        let n = f[i];
        let m = Tree { children: append_at(n.children, path.drop_first(), c), ..n };
        lemma_ids_append(n.children, path.drop_first(), c);
        lemma_upto_update(f, i, m, f.len() as int);
        assert(append_at(f, path, c) == f.update(i, m));
        if path_leads(f, path) {
            assert(tree_ids(m) =~= tree_ids(n).add(tree_ids(c)));
            let g = f.update(i, m);
            assert forall|x: usize|
                #[trigger] forest_ids(g).count(x) == forest_ids(f).add(tree_ids(c)).count(x) by {
                assert(forest_ids(g).add(tree_ids(n)).count(x) == forest_ids(f).add(
                    tree_ids(m),
                ).count(x));
                assert(tree_ids(m).count(x) == tree_ids(n).count(x) + tree_ids(c).count(x));
            }
            assert(forest_ids(g) =~= forest_ids(f).add(tree_ids(c)));
        }
        if !path_leads(f, path) {
            assert(m == n);
            assert(f.update(i, m) =~= f);
        }
    }
}

/// No id is counted twice in `m`.
pub open spec fn no_repeats(m: Multiset<usize>) -> bool {
    forall|x: usize| #[trigger] m.count(x) <= 1
}

/// No id is counted in both `a` and `b`.
pub open spec fn disjoint(a: Multiset<usize>, b: Multiset<usize>) -> bool {
    forall|x: usize| #[trigger] a.count(x) > 0 ==> b.count(x) == 0
}

/// Every id counted in `m` is in `seen`.
pub open spec fn within(m: Multiset<usize>, seen: Set<usize>) -> bool {
    forall|x: usize| #[trigger] m.count(x) > 0 ==> seen.contains(x)
}

/// Across the forest and the holding pool of `s`, each id stands at most
/// once, and only ids of `seen`.
pub open spec fn ids_distinct_within(s: BuildModel, seen: Set<usize>) -> bool {
    let f = forest_ids(s.forest);
    &&& no_repeats(f)
    &&& within(f, seen)
    &&& forall|k: usize|
        #[trigger] s.holding.contains_key(k) ==> {
            &&& no_repeats(forest_ids(s.holding[k]))
            &&& within(forest_ids(s.holding[k]), seen)
            &&& disjoint(forest_ids(s.holding[k]), f)
        }
    &&& forall|k1: usize, k2: usize|
        #![trigger s.holding.contains_key(k1), s.holding.contains_key(k2)]
        s.holding.contains_key(k1) && s.holding.contains_key(k2) && k1 != k2 ==> disjoint(
            forest_ids(s.holding[k1]),
            forest_ids(s.holding[k2]),
        )
}

proof fn lemma_ids_empty(f: Seq<Tree>)
    requires
        f.len() == 0,
    ensures
        forest_ids(f) == Multiset::<usize>::empty(),
{
}

proof fn lemma_step_ids(s: BuildModel, it: RawMenuItem, seen: Set<usize>)
    requires
        ids_distinct_within(s, seen),
        !seen.contains(it.id),
    ensures
        ids_distinct_within(step(s, it), seen.insert(it.id)),
{
    let f = forest_ids(s.forest);
    let h = held(s.holding, it.id);
    let hn = forest_ids(h);
    let node = node_of(s, it);
    let nn = tree_ids(node);
    let seen2 = seen.insert(it.id);
    let t = step(s, it);
    let holding = s.holding.remove(it.id);
    if !s.holding.contains_key(it.id) {
        lemma_ids_empty(h);
    }
    assert(node.children == h);
    assert(nn == Multiset::singleton(it.id).add(hn));
    assert(no_repeats(hn) && within(hn, seen) && disjoint(hn, f));
    assert forall|k: usize| #[trigger] holding.contains_key(k) implies disjoint(
        nn,
        forest_ids(holding[k]),
    ) && disjoint(forest_ids(holding[k]), nn) by {
        assert(s.holding.contains_key(k) && k != it.id);
    }
    assert(no_repeats(nn));
    assert(within(nn, seen2));
    assert(disjoint(nn, f) && disjoint(f, nn));
    match it.parent_id {
        None => {
            lemma_ids_append(s.forest, Seq::empty(), node);
        },
        Some(p) => {
            if s.placed.contains_key(p) {
                lemma_ids_append(s.forest, s.placed[p], node);
            } else {
                let u = BuildModel { holding, ..s };
                let pooled = s.pooled.contains_key(p) && pool_path_leads(u, s.pooled[p]);
                let key = if pooled {
                    s.pooled[p][0]
                } else {
                    p
                };
                let w = held(holding, key);
                if !holding.contains_key(key) {
                    lemma_ids_empty(w);
                }
                let wn = forest_ids(w);
                let changed = !pooled || width_at(w, s.pooled[p].drop_first()) <= usize::MAX;
                if changed {
                    if pooled {
                        lemma_ids_append(w, s.pooled[p].drop_first(), node);
                        assert(forest_ids(t.holding[key]) =~= wn.add(nn));
                    } else {
                        lemma_ids_push(w, node);
                    }
                    assert(forest_ids(t.holding[key]) == wn.add(nn));
                    assert(disjoint(wn, nn));
                    assert forall|k: usize| #[trigger]
                        t.holding.contains_key(k) && k != key implies disjoint(
                        forest_ids(t.holding[k]),
                        wn.add(nn),
                    ) && disjoint(wn.add(nn), forest_ids(t.holding[k])) by {
                        assert(holding.contains_key(k));
                        if holding.contains_key(key) {
                            assert(disjoint(forest_ids(holding[k]), wn));
                        }
                    }
                } else {
                    assert(t == u);
                }
            }
        },
    }
}

/// The set of ids of the first `n` items.
pub open spec fn seen_ids(items: Seq<RawMenuItem>, n: int) -> Set<usize> {
    Set::new(|x: usize| exists|i: int| 0 <= i < n && items[i].id == x)
}

/// No two items share an id.
pub open spec fn distinct_ids(items: Seq<RawMenuItem>) -> bool {
    forall|i: int, j: int|
        0 <= i < j < items.len() ==> #[trigger] items[i].id != #[trigger] items[j].id
}

proof fn lemma_run_ids(items: Seq<RawMenuItem>, n: int)
    requires
        distinct_ids(items),
        0 <= n <= items.len(),
    ensures
        ids_distinct_within(run(items, n as nat), seen_ids(items, n)),
    decreases n,
{
    if n == 0 {
        lemma_ids_empty(Seq::<Tree>::empty());
    } else {
        lemma_run_ids(items, n - 1);
        let it = items[n - 1];
        assert(!seen_ids(items, n - 1).contains(it.id));
        lemma_step_ids(run(items, (n - 1) as nat), it, seen_ids(items, n - 1));
        assert(seen_ids(items, n - 1).insert(it.id) =~= seen_ids(items, n));
    }
}

/// Where no two items share an id, no id stands twice in the built forest,
/// and every id that stands there is the id of an item.
pub proof fn lemma_built_ids_distinct(items: Seq<RawMenuItem>, x: usize)
    requires
        distinct_ids(items),
    ensures
        forest_ids(build_spec(items)).count(x) <= 1,
        forest_ids(build_spec(items)).count(x) > 0 ==> exists|i: int|
            0 <= i < items.len() && items[i].id == x,
{
    lemma_run_ids(items, items.len() as int);
    assert(seen_ids(items, items.len() as int).contains(x) ==> exists|i: int|
        0 <= i < items.len() && items[i].id == x);
}

/// The ids of the top-level trees of `f`, in order.
pub open spec fn top_ids(f: Seq<Tree>) -> Seq<usize> {
    Seq::new(f.len(), |i: int| f[i].id)
}

/// The ids of the items among the first `n` that have no parent, in order.
pub open spec fn root_ids(items: Seq<RawMenuItem>, n: int) -> Seq<usize>
    decreases n,
{
    if 0 < n <= items.len() {
        if items[n - 1].parent_id is None {
            root_ids(items, n - 1).push(items[n - 1].id)
        } else {
            root_ids(items, n - 1)
        }
    } else {
        Seq::empty()
    }
}

proof fn lemma_top_append(f: Seq<Tree>, path: Seq<usize>, c: Tree)
    requires
        path.len() > 0,
    ensures
        top_ids(append_at(f, path, c)) == top_ids(f),
{
    assert(top_ids(append_at(f, path, c)) =~= top_ids(f));
}

proof fn lemma_run_roots(items: Seq<RawMenuItem>, n: int)
    requires
        0 <= n <= items.len(),
        items.len() <= usize::MAX,
    ensures
        top_ids(run(items, n as nat).forest) == root_ids(items, n),
        root_ids(items, n).len() <= n,
    decreases n,
{
    if n == 0 {
        assert(top_ids(run(items, 0).forest) =~= Seq::empty());
    } else {
        lemma_run_roots(items, n - 1);
        let s = run(items, (n - 1) as nat);
        let it = items[n - 1];
        let t = step(s, it);
        match it.parent_id {
            None => {
                assert(s.forest.len() == top_ids(s.forest).len());
                assert(top_ids(t.forest) =~= top_ids(s.forest).push(it.id));
            },
            Some(p) => {
                if s.placed.contains_key(p) && path_leads(s.forest, s.placed[p]) {
                    lemma_placed_paths_resolve(items, n - 1);
                    lemma_top_append(s.forest, s.placed[p], node_of(s, it));
                }
            },
        }
    }
}

/// The top level of the built forest holds the items that have no parent,
/// one tree for each, in the order of the input.
pub proof fn lemma_roots_in_input_order(items: Seq<RawMenuItem>)
    requires
        items.len() <= usize::MAX,
    ensures
        top_ids(build_spec(items)) == root_ids(items, items.len() as int),
{
    lemma_run_roots(items, items.len() as int);
}

proof fn lemma_leads_push(f: Seq<Tree>, p: Seq<usize>, i: usize)
    ensures
        path_leads(f, p.push(i)) == (path_leads(f, p) && (i as int) < children_at(f, p).len()),
        path_leads(f, p.push(i)) ==> children_at(f, p.push(i)) == children_at(f, p)[i as int].children
            && id_at(f, p.push(i)) == children_at(f, p)[i as int].id,
    decreases p.len(),
{
    if p.len() == 0 {
        let q = p.push(i);
        assert(q.drop_first() =~= Seq::<usize>::empty());
        assert(q[0] == i);
        if (i as int) < f.len() {
            assert(path_leads(f[i as int].children, q.drop_first()));
            assert(children_at(f[i as int].children, q.drop_first()) == f[i as int].children);
        }
    } else {
        assert(p.push(i).drop_first() =~= p.drop_first().push(i));
        assert(p.push(i)[0] == p[0]);
        if p[0] < f.len() {
            lemma_leads_push(f[p[0] as int].children, p.drop_first(), i);
        }
    }
}

proof fn lemma_append_target(f: Seq<Tree>, q: Seq<usize>, c: Tree)
    requires
        path_leads(f, q),
    ensures
        path_leads(append_at(f, q, c), q),
        children_at(append_at(f, q, c), q) == children_at(f, q).push(c),
    decreases q.len(),
{
    if q.len() > 0 {
        lemma_append_target(f[q[0] as int].children, q.drop_first(), c);
    }
}

proof fn lemma_append_keeps(f: Seq<Tree>, q: Seq<usize>, c: Tree, r: Seq<usize>)
    requires
        path_leads(f, r),
    ensures
        path_leads(append_at(f, q, c), r),
        r.len() > 0 ==> id_at(append_at(f, q, c), r) == id_at(f, r),
    decreases r.len(),
{
    let g = append_at(f, q, c);
    if r.len() > 0 {
        let j = r[0] as int;
        if q.len() == 0 {
            assert(g[j] == f[j]);
        } else if q[0] < f.len() {
            if j == q[0] as int {
                lemma_append_keeps(f[j].children, q.drop_first(), c, r.drop_first());
            } else {
                assert(g[j] == f[j]);
            }
        }
    }
}

/// Every path that `m` records is nonempty and leads in `f` to a node whose
/// id is the path's key.
pub open spec fn paths_resolve(m: Map<usize, Seq<usize>>, f: Seq<Tree>) -> bool {
    forall|k: usize|
        #[trigger] m.contains_key(k) ==> {
            &&& m[k].len() > 0
            &&& path_leads(f, m[k])
            &&& id_at(f, m[k]) == k
        }
}

proof fn lemma_index_tree_resolves(m: Map<usize, Seq<usize>>, t: Tree, path: Seq<usize>, f: Seq<Tree>)
    requires
        paths_resolve(m, f),
        path.len() > 0,
        path_leads(f, path),
        id_at(f, path) == t.id,
        children_at(f, path) == t.children,
    ensures
        paths_resolve(index_tree(m, t, path), f),
    decreases t, 0int,
{
    lemma_index_forest_resolves(m.insert(t.id, path), t.children, path, 0, f);
}

proof fn lemma_index_forest_resolves(
    m: Map<usize, Seq<usize>>,
    ts: Seq<Tree>,
    path: Seq<usize>,
    i: int,
    f: Seq<Tree>,
)
    requires
        paths_resolve(m, f),
        path_leads(f, path),
        children_at(f, path) == ts,
    ensures
        paths_resolve(index_forest(m, ts, path, i), f),
    decreases ts, ts.len() - i,
{
    if 0 <= i < ts.len() && i <= usize::MAX {
        lemma_leads_push(f, path, i as usize);
        lemma_index_tree_resolves(m, ts[i], path.push(i as usize), f);
        lemma_index_forest_resolves(
            index_tree(m, ts[i], path.push(i as usize)),
            ts,
            path,
            i + 1,
            f,
        );
    }
}

/// At every stage of a build, each path in the placed index is nonempty and
/// leads to the node of that id.
pub proof fn lemma_placed_paths_resolve(items: Seq<RawMenuItem>, n: int)
    requires
        0 <= n <= items.len(),
    ensures
        paths_resolve(run(items, n as nat).placed, run(items, n as nat).forest),
    decreases n,
{
    if n > 0 {
        lemma_placed_paths_resolve(items, n - 1);
        let s = run(items, (n - 1) as nat);
        let it = items[n - 1];
        let node = node_of(s, it);
        let t = step(s, it);
        let q = match it.parent_id {
            None => Seq::<usize>::empty(),
            Some(p) => if s.placed.contains_key(p) {
                s.placed[p]
            } else {
                Seq::<usize>::empty()
            },
        };
        let attached = match it.parent_id {
            None => true,
            Some(p) => s.placed.contains_key(p) && path_leads(s.forest, s.placed[p]),
        };
        if attached && width_at(s.forest, q) <= usize::MAX {
            let g = append_at(s.forest, q, node);
            assert(t.forest == g);
            assert forall|k: usize| #[trigger] s.placed.contains_key(k) implies {
                &&& path_leads(g, s.placed[k])
                &&& id_at(g, s.placed[k]) == k
            } by {
                lemma_append_keeps(s.forest, q, node, s.placed[k]);
            }
            lemma_append_target(s.forest, q, node);
            let w = width_at(s.forest, q) as usize;
            lemma_leads_push(g, q, w);
            if it.parent_id is None {
                assert(q.push(w) =~= seq![s.forest.len() as usize]);
            }
            lemma_index_tree_resolves(s.placed, node, q.push(w), g);
        }
    }
}

proof fn lemma_upto_len(f: Seq<Tree>, k: int)
    requires
        0 <= k <= f.len(),
    ensures
        forest_ids_upto(f, k).len() >= k,
        forall|i: int| 0 <= i < k ==> forest_ids_upto(f, k).len() >= #[trigger] tree_ids(f[i]).len(),
    decreases k,
{
    if k > 0 {
        lemma_upto_len(f, k - 1);
        let t = f[k - 1];
        assert(tree_ids(t).len() == 1 + forest_ids_upto(t.children, t.children.len() as int).len());
    }
}

proof fn lemma_width_le_ids(f: Seq<Tree>, q: Seq<usize>)
    requires
        path_leads(f, q),
    ensures
        children_at(f, q).len() <= forest_ids(f).len(),
    decreases q.len(),
{
    lemma_upto_len(f, f.len() as int);
    if q.len() > 0 {
        let t = f[q[0] as int];
        lemma_width_le_ids(t.children, q.drop_first());
        assert(tree_ids(t).len() == 1 + forest_ids(t.children).len());
    }
}

proof fn lemma_len_within(m: Multiset<usize>, seen: Set<usize>)
    requires
        no_repeats(m),
        within(m, seen),
        seen.finite(),
    ensures
        m.len() <= seen.len(),
    decreases seen.len(),
{
    if m.len() > 0 {
        if forall|x: usize| m.count(x) == 0 {
            assert(m =~= Multiset::empty());
        }
        let x = choose|x: usize| m.count(x) > 0;
        let rest = m.sub(Multiset::singleton(x));
        assert(within(rest, seen.remove(x)));
        lemma_len_within(rest, seen.remove(x));
    }
}

proof fn lemma_seen_len(items: Seq<RawMenuItem>, n: int)
    requires
        0 <= n <= items.len(),
    ensures
        seen_ids(items, n).finite(),
        seen_ids(items, n).len() <= n,
    decreases n,
{
    if n == 0 {
        assert(seen_ids(items, 0) =~= Set::empty());
    } else {
        lemma_seen_len(items, n - 1);
        assert(seen_ids(items, n - 1).insert(items[n - 1].id) =~= seen_ids(items, n));
    }
}

proof fn lemma_index_tree_keys(m: Map<usize, Seq<usize>>, t: Tree, path: Seq<usize>)
    ensures
        index_tree(m, t, path).contains_key(t.id),
        forall|k: usize| m.contains_key(k) ==> #[trigger] index_tree(m, t, path).contains_key(k),
    decreases t, 0int,
{
    let m1 = m.insert(t.id, path);
    lemma_index_forest_keys(m1, t.children, path, 0);
    assert(index_tree(m, t, path) == index_forest(m1, t.children, path, 0));
    assert(m1.contains_key(t.id));
    assert forall|k: usize| m.contains_key(k) implies #[trigger] index_tree(m, t, path).contains_key(
        k,
    ) by {
        assert(m1.contains_key(k));
    }
}

proof fn lemma_index_forest_keys(m: Map<usize, Seq<usize>>, ts: Seq<Tree>, path: Seq<usize>, i: int)
    ensures
        forall|k: usize| m.contains_key(k) ==> #[trigger] index_forest(m, ts, path, i).contains_key(k),
    decreases ts, ts.len() - i,
{
    if 0 <= i < ts.len() && i <= usize::MAX {
        let m1 = index_tree(m, ts[i], path.push(i as usize));
        lemma_index_tree_keys(m, ts[i], path.push(i as usize));
        lemma_index_forest_keys(m1, ts, path, i + 1);
        assert(index_forest(m, ts, path, i) == index_forest(m1, ts, path, i + 1));
        assert forall|k: usize| m.contains_key(k) implies #[trigger] index_forest(
            m,
            ts,
            path,
            i,
        ).contains_key(k) by {
            assert(m1.contains_key(k));
        }
    }
}

/// Whether some item listed before position `j` has the id `p`.
pub open spec fn listed_before(items: Seq<RawMenuItem>, j: int, p: usize) -> bool {
    exists|i: int| 0 <= i < j && #[trigger] items[i].id == p
}

/// A position before `j` of an item with the id `p`, where there is one.
pub open spec fn position_before(items: Seq<RawMenuItem>, j: int, p: usize) -> int {
    choose|i: int| 0 <= i < j && #[trigger] items[i].id == p
}

/// Whether the item at position `j` reaches a root through a chain of
/// parents each listed before its child.
pub open spec fn rooted_before(items: Seq<RawMenuItem>, j: int) -> bool
    decreases j,
{
    if 0 <= j < items.len() {
        match items[j].parent_id {
            None => true,
            Some(p) => listed_before(items, j, p) && rooted_before(
                items,
                position_before(items, j, p),
            ),
        }
    } else {
        false
    }
}

proof fn lemma_run_complete(items: Seq<RawMenuItem>, n: int)
    requires
        distinct_ids(items),
        items.len() <= usize::MAX,
        0 <= n <= items.len(),
    ensures
        forall|j: int|
            0 <= j < n && #[trigger] rooted_before(items, j) ==> {
                &&& run(items, n as nat).placed.contains_key(items[j].id)
                &&& forest_ids(run(items, n as nat).forest).count(items[j].id) > 0
            },
    decreases n,
{
    if n > 0 {
        lemma_run_complete(items, n - 1);
        lemma_run_ids(items, n - 1);
        lemma_placed_paths_resolve(items, n - 1);
        lemma_seen_len(items, n - 1);
        let s = run(items, (n - 1) as nat);
        let it = items[n - 1];
        let node = node_of(s, it);
        let t = step(s, it);
        let f = forest_ids(s.forest);
        lemma_len_within(f, seen_ids(items, n - 1));
        let q = match it.parent_id {
            None => Seq::<usize>::empty(),
            Some(p) => if s.placed.contains_key(p) {
                s.placed[p]
            } else {
                Seq::<usize>::empty()
            },
        };
        let attached = match it.parent_id {
            None => true,
            Some(p) => s.placed.contains_key(p) && path_leads(s.forest, s.placed[p]),
        };
        if attached {
            lemma_width_le_ids(s.forest, q);
            let w = width_at(s.forest, q) as usize;
            lemma_ids_append(s.forest, q, node);
            lemma_index_tree_keys(s.placed, node, q.push(w));
            assert(tree_ids(node).count(it.id) > 0);
            assert(t.forest == append_at(s.forest, q, node));
            assert(forall|x: usize| #[trigger] forest_ids(t.forest).count(x) >= f.count(x));
        } else {
            assert(t.forest == s.forest && t.placed == s.placed);
        }
        assert forall|j: int|
            0 <= j < n && #[trigger] rooted_before(items, j) implies {
                &&& t.placed.contains_key(items[j].id)
                &&& forest_ids(t.forest).count(items[j].id) > 0
            } by {
            if j == n - 1 {
                assert(items[j] == it);
                if let Some(p) = it.parent_id {
                    assert(items[j].parent_id == Some(p));
                    let i = position_before(items, j, p);
                    assert(rooted_before(items, i));
                    assert(s.placed.contains_key(items[i].id));
                }
            }
        }
    }
}

/// Where no two items share an id, each item whose chain of parents reaches
/// a root through items listed before their children stands exactly once in
/// the built forest.
pub proof fn lemma_parents_first_items_placed(items: Seq<RawMenuItem>, j: int)
    requires
        distinct_ids(items),
        items.len() <= usize::MAX,
        rooted_before(items, j),
    ensures
        forest_ids(build_spec(items)).count(items[j].id) == 1,
{
    lemma_run_complete(items, items.len() as int);
    lemma_built_ids_distinct(items, items[j].id);
}

proof fn lemma_append_child_ids(f: Seq<Tree>, q: Seq<usize>, c: Tree, r: Seq<usize>)
    requires
        path_leads(f, r),
    ensures
        top_ids(children_at(append_at(f, q, c), r)) == (if r == q {
            top_ids(children_at(f, r)).push(c.id)
        } else {
            top_ids(children_at(f, r))
        }),
    decreases r.len(),
{
    let g = append_at(f, q, c);
    if r.len() == 0 {
        if q.len() == 0 {
            assert(r =~= q);
            assert(top_ids(g) =~= top_ids(f).push(c.id));
        } else {
            lemma_top_append(f, q, c);
        }
    } else {
        let j = r[0] as int;
        if q.len() == 0 {
            assert(g[j] == f[j]);
            assert(r != q);
            assert(children_at(g, r) == children_at(f, r));
        } else if q[0] < f.len() {
            if j == q[0] as int {
                lemma_append_child_ids(f[j].children, q.drop_first(), c, r.drop_first());
                assert((r == q) == (r.drop_first() == q.drop_first())) by {
                    if r.drop_first() == q.drop_first() {
                        assert forall|k: int| 0 <= k < r.len() implies r[k] == q[k] by {
                            if k > 0 {
                                assert(r[k] == r.drop_first()[k - 1]);
                                assert(q[k] == q.drop_first()[k - 1]);
                            }
                        };
                        assert(r =~= q);
                    }
                };
                assert(children_at(g, r) == children_at(g[j].children, r.drop_first()));
            } else {
                assert(g[j] == f[j]);
                assert(r != q);
                assert(children_at(g, r) == children_at(f, r));
            }
        } else {
            assert(r[0] != q[0]);
            assert(r != q);
        }
    }
}

proof fn lemma_append_leaf_fresh(f: Seq<Tree>, q: Seq<usize>, c: Tree, r: Seq<usize>)
    requires
        c.children.len() == 0,
        path_leads(append_at(f, q, c), r),
        !path_leads(f, r),
    ensures
        children_at(append_at(f, q, c), r).len() == 0,
    decreases r.len(),
{
    let g = append_at(f, q, c);
    assert(r.len() > 0);
    let j = r[0] as int;
    assert(j < g.len());
    assert(children_at(g, r) == children_at(g[j].children, r.drop_first()));
    if q.len() == 0 {
        if j < f.len() {
            assert(g[j] == f[j]);
        } else {
            assert(g[j] == c);
            if r.drop_first().len() > 0 {
                assert(!path_leads(c.children, r.drop_first()));
            }
        }
    } else if q[0] < f.len() {
        if j == q[0] as int {
            assert(g[j].children == append_at(f[j].children, q.drop_first(), c));
            lemma_append_leaf_fresh(f[j].children, q.drop_first(), c, r.drop_first());
        } else {
            assert(g[j] == f[j]);
        }
    }
}

/// Whether `f` holds a node of id `x` among the children of a node of id
/// `p`.
pub open spec fn has_edge(f: Seq<Tree>, p: usize, x: usize) -> bool {
    exists|q: Seq<usize>|
        q.len() > 0 && path_leads(f, q) && id_at(f, q) == p && #[trigger] top_ids(
            children_at(f, q),
        ).contains(x)
}

proof fn lemma_append_leaf_edges(f: Seq<Tree>, q: Seq<usize>, c: Tree, a: usize, b: usize)
    requires
        c.children.len() == 0,
        path_leads(f, q),
    ensures
        has_edge(append_at(f, q, c), a, b) == (has_edge(f, a, b) || (q.len() > 0 && a == id_at(
            f,
            q,
        ) && b == c.id)),
{
    let g = append_at(f, q, c);
    if has_edge(f, a, b) {
        let r = choose|r: Seq<usize>|
            r.len() > 0 && path_leads(f, r) && id_at(f, r) == a && #[trigger] top_ids(
                children_at(f, r),
            ).contains(b);
        lemma_append_keeps(f, q, c, r);
        lemma_append_child_ids(f, q, c, r);
        let k = choose|k: int| 0 <= k < top_ids(children_at(f, r)).len() && top_ids(children_at(f, r))[k] == b;
        assert(top_ids(children_at(g, r))[k] == b);
        assert(top_ids(children_at(g, r)).contains(b));
    }
    if q.len() > 0 && a == id_at(f, q) && b == c.id {
        lemma_append_keeps(f, q, c, q);
        lemma_append_target(f, q, c);
        lemma_append_child_ids(f, q, c, q);
        let n = top_ids(children_at(f, q)).len();
        assert(top_ids(children_at(g, q))[n as int] == b);
        assert(top_ids(children_at(g, q)).contains(b));
    }
    if has_edge(g, a, b) {
        let r = choose|r: Seq<usize>|
            r.len() > 0 && path_leads(g, r) && id_at(g, r) == a && #[trigger] top_ids(
                children_at(g, r),
            ).contains(b);
        if path_leads(f, r) {
            lemma_append_keeps(f, q, c, r);
            lemma_append_child_ids(f, q, c, r);
            let ids = top_ids(children_at(f, r));
            if !(r == q && b == c.id) {
                let k = choose|k: int| 0 <= k < top_ids(children_at(g, r)).len() && top_ids(children_at(g, r))[k] == b;
                assert(k < ids.len());
                assert(ids[k] == b);
                assert(ids.contains(b));
            }
        } else {
            lemma_append_leaf_fresh(f, q, c, r);
        }
    }
}

/// Every item that is another's parent is listed before it.
pub open spec fn parents_first(items: Seq<RawMenuItem>) -> bool {
    forall|i: int, j: int|
        #![trigger items[j].parent_id, items[i].id]
        0 <= i < items.len() && 0 <= j < items.len() && items[j].parent_id == Some(items[i].id)
            ==> i < j
}

/// Whether one of the first `n` items has the id `x`, names `p` as its
/// parent, and reaches a root through its parents.
pub open spec fn declared_edge(items: Seq<RawMenuItem>, n: int, p: usize, x: usize) -> bool {
    exists|j: int|
        0 <= j < n && items[j].id == x && items[j].parent_id == Some(p) && #[trigger] rooted_before(
            items,
            j,
        )
}

proof fn lemma_run_edges(items: Seq<RawMenuItem>, n: int)
    requires
        distinct_ids(items),
        parents_first(items),
        items.len() <= usize::MAX,
        0 <= n <= items.len(),
    ensures
        forall|k: usize| #[trigger]
            run(items, n as nat).holding.contains_key(k) ==> exists|j: int|
                0 <= j < n && items[j].parent_id == Some(k),
        forall|k: usize| #[trigger]
            run(items, n as nat).placed.contains_key(k) ==> exists|j: int|
                0 <= j < n && items[j].id == k && rooted_before(items, j),
        forall|a: usize, b: usize| #[trigger]
            has_edge(run(items, n as nat).forest, a, b) == declared_edge(items, n, a, b),
    decreases n,
{
    if n > 0 {
        lemma_run_edges(items, n - 1);
        lemma_run_complete(items, n - 1);
        lemma_run_ids(items, n - 1);
        lemma_placed_paths_resolve(items, n - 1);
        lemma_seen_len(items, n - 1);
        let s = run(items, (n - 1) as nat);
        let it = items[n - 1];
        let node = node_of(s, it);
        let t = step(s, it);
        lemma_len_within(forest_ids(s.forest), seen_ids(items, n - 1));
        if s.holding.contains_key(it.id) {
            let j = choose|j: int| 0 <= j < n - 1 && items[j].parent_id == Some(it.id);
            assert(items[j].parent_id == Some(items[n - 1].id));
        }
        assert(node.children.len() == 0);
        let q = match it.parent_id {
            None => Seq::<usize>::empty(),
            Some(p) => if s.placed.contains_key(p) {
                s.placed[p]
            } else {
                Seq::<usize>::empty()
            },
        };
        let attached = match it.parent_id {
            None => true,
            Some(p) => s.placed.contains_key(p),
        };
        if attached {
            lemma_width_le_ids(s.forest, q);
            let w = width_at(s.forest, q) as usize;
            assert(index_tree(s.placed, node, q.push(w)) == s.placed.insert(it.id, q.push(w)));
            assert(t.forest == append_at(s.forest, q, node));
            assert(t.placed == s.placed.insert(it.id, q.push(w)));
            assert(rooted_before(items, n - 1)) by {
                if let Some(p) = it.parent_id {
                    let i = choose|i: int| 0 <= i < n - 1 && items[i].id == p && rooted_before(items, i);
                    assert(listed_before(items, n - 1, p));
                    let i2 = position_before(items, n - 1, p);
                    assert(i2 == i);
                }
            };
            assert forall|a: usize, b: usize| #[trigger]
                has_edge(t.forest, a, b) == declared_edge(items, n, a, b) by {
                lemma_append_leaf_edges(s.forest, q, node, a, b);
                if declared_edge(items, n, a, b) && !declared_edge(items, n - 1, a, b) {
                    let j = choose|j: int|
                        0 <= j < n && items[j].id == b && items[j].parent_id == Some(a)
                            && #[trigger] rooted_before(items, j);
                    assert(j == n - 1);
                }
                if declared_edge(items, n - 1, a, b) {
                    let j = choose|j: int|
                        0 <= j < n - 1 && items[j].id == b && items[j].parent_id == Some(a)
                            && #[trigger] rooted_before(items, j);
                    assert(declared_edge(items, n, a, b));
                }
                if q.len() > 0 && a == id_at(s.forest, q) && b == node.id {
                    assert(declared_edge(items, n, a, b)) by {
                        assert(rooted_before(items, n - 1));
                    };
                }
            }
            assert forall|k: usize| #[trigger] t.placed.contains_key(k) implies exists|j: int|
                0 <= j < n && items[j].id == k && rooted_before(items, j) by {
                if k != it.id {
                    let j = choose|j: int| 0 <= j < n - 1 && items[j].id == k && rooted_before(items, j);
                    assert(0 <= j < n);
                } else {
                    assert(items[n - 1].id == k);
                }
            }
        } else {
            assert(t.forest == s.forest && t.placed == s.placed);
            assert(!rooted_before(items, n - 1)) by {
                if let Some(p) = it.parent_id {
                    if listed_before(items, n - 1, p) && rooted_before(
                        items,
                        position_before(items, n - 1, p),
                    ) {
                        let i = position_before(items, n - 1, p);
                        assert(s.placed.contains_key(items[i].id));
                    }
                }
            };
            assert forall|a: usize, b: usize| #[trigger]
                has_edge(t.forest, a, b) == declared_edge(items, n, a, b) by {
                if declared_edge(items, n, a, b) {
                    let j = choose|j: int|
                        0 <= j < n && items[j].id == b && items[j].parent_id == Some(a)
                            && #[trigger] rooted_before(items, j);
                    assert(j < n - 1);
                }
                if declared_edge(items, n - 1, a, b) {
                    let j = choose|j: int|
                        0 <= j < n - 1 && items[j].id == b && items[j].parent_id == Some(a)
                            && #[trigger] rooted_before(items, j);
                    assert(declared_edge(items, n, a, b));
                }
            }
        }
        assert forall|k: usize| #[trigger] t.holding.contains_key(k) implies exists|j: int|
            0 <= j < n && items[j].parent_id == Some(k) by {
            if it.parent_id == Some(k) {
                assert(items[n - 1].parent_id == Some(k));
            } else {
                assert(s.holding.contains_key(k));
                let j = choose|j: int| 0 <= j < n - 1 && items[j].parent_id == Some(k);
                assert(0 <= j < n);
            }
        }
    } else {
        assert forall|a: usize, b: usize| #[trigger]
            has_edge(run(items, 0).forest, a, b) == declared_edge(items, 0, a, b) by {
            if has_edge(run(items, 0).forest, a, b) {
                let q = choose|q: Seq<usize>|
                    q.len() > 0 && path_leads(run(items, 0).forest, q) && id_at(run(items, 0).forest, q) == a
                        && #[trigger] top_ids(children_at(run(items, 0).forest, q)).contains(b);
            }
        }
    }
}

/// Where no two items share an id and every parent is listed before its
/// children, the built forest has a node of id `x` among the children of a
/// node of id `p` exactly when an item of id `x` names `p` as its parent and
/// reaches a root through its parents.
pub proof fn lemma_parents_first_edges(items: Seq<RawMenuItem>, p: usize, x: usize)
    requires
        distinct_ids(items),
        parents_first(items),
        items.len() <= usize::MAX,
    ensures
        has_edge(build_spec(items), p, x) == declared_edge(items, items.len() as int, p, x),
{
    lemma_run_edges(items, items.len() as int);
    let n = items.len() as int;
    assert(forall|a: usize, b: usize| #[trigger]
        has_edge(run(items, n as nat).forest, a, b) == declared_edge(items, n, a, b));
    assert(has_edge(run(items, n as nat).forest, p, x) == declared_edge(items, n, p, x));
    assert(build_spec(items) == run(items, n as nat).forest);
}

/// A record of `s` with the id `p`, where there is one.
pub open spec fn record_with_id(s: Set<RawMenuItem>, p: usize) -> RawMenuItem {
    choose|r: RawMenuItem| s.contains(r) && r.id == p
}

/// Whether `it` reaches a root within `k` steps from a record to its parent
/// among the records of `s`.
pub open spec fn reaches_root(s: Set<RawMenuItem>, it: RawMenuItem, k: nat) -> bool
    decreases k,
{
    match it.parent_id {
        None => true,
        Some(p) => k > 0 && (exists|r: RawMenuItem| #[trigger] s.contains(r) && r.id == p)
            && reaches_root(s, record_with_id(s, p), (k - 1) as nat),
    }
}

proof fn lemma_reaches_root_mono(s: Set<RawMenuItem>, it: RawMenuItem, k: nat, k2: nat)
    requires
        reaches_root(s, it, k),
        k <= k2,
    ensures
        reaches_root(s, it, k2),
    decreases k,
{
    if let Some(p) = it.parent_id {
        lemma_reaches_root_mono(s, record_with_id(s, p), (k - 1) as nat, (k2 - 1) as nat);
    }
}

proof fn lemma_record_is_item(items: Seq<RawMenuItem>, i: int, p: usize)
    requires
        distinct_ids(items),
        0 <= i < items.len(),
        items[i].id == p,
    ensures
        record_with_id(items.to_set(), p) == items[i],
{
    assert(items.to_set().contains(items[i]));
    let r = record_with_id(items.to_set(), p);
    let m = choose|m: int| 0 <= m < items.len() && items[m] == r;
    if m != i {
        if m < i {
            assert(items[m].id != items[i].id);
        } else {
            assert(items[i].id != items[m].id);
        }
    }
}

proof fn lemma_rooted_reaches(items: Seq<RawMenuItem>, j: int)
    requires
        distinct_ids(items),
        rooted_before(items, j),
    ensures
        reaches_root(items.to_set(), items[j], (j + 1) as nat),
    decreases j,
{
    if let Some(p) = items[j].parent_id {
        let i = position_before(items, j, p);
        lemma_rooted_reaches(items, i);
        lemma_reaches_root_mono(items.to_set(), items[i], (i + 1) as nat, j as nat);
        lemma_record_is_item(items, i, p);
        assert(items.to_set().contains(items[i]));
    }
}

proof fn lemma_reaches_rooted(items: Seq<RawMenuItem>, j: int, k: nat)
    requires
        distinct_ids(items),
        parents_first(items),
        0 <= j < items.len(),
        reaches_root(items.to_set(), items[j], k),
    ensures
        rooted_before(items, j),
    decreases k,
{
    if let Some(p) = items[j].parent_id {
        let r = choose|r: RawMenuItem| #[trigger] items.to_set().contains(r) && r.id == p;
        let i = choose|i: int| 0 <= i < items.len() && items[i] == r;
        assert(items[j].parent_id == Some(items[i].id));
        assert(i < j);
        assert(listed_before(items, j, p));
        let i2 = position_before(items, j, p);
        if i2 != i {
            if i2 < i {
                assert(items[i2].id != items[i].id);
            } else {
                assert(items[i].id != items[i2].id);
            }
        }
        lemma_record_is_item(items, i, p);
        lemma_reaches_rooted(items, i, (k - 1) as nat);
    }
}

/// Whether some record of `s` has the id `x`, names `p` as its parent, and
/// reaches a root through the records of `s`.
pub open spec fn set_edge(s: Set<RawMenuItem>, p: usize, x: usize) -> bool {
    exists|r: RawMenuItem, k: nat|
        #[trigger] s.contains(r) && r.id == x && r.parent_id == Some(p) && #[trigger] reaches_root(
            s,
            r,
            k,
        )
}

proof fn lemma_declared_is_set_edge(items: Seq<RawMenuItem>, p: usize, x: usize)
    requires
        distinct_ids(items),
        parents_first(items),
    ensures
        declared_edge(items, items.len() as int, p, x) == set_edge(items.to_set(), p, x),
{
    let s = items.to_set();
    if declared_edge(items, items.len() as int, p, x) {
        let j = choose|j: int|
            0 <= j < items.len() && items[j].id == x && items[j].parent_id == Some(p)
                && #[trigger] rooted_before(items, j);
        lemma_rooted_reaches(items, j);
        assert(s.contains(items[j]));
        assert(reaches_root(s, items[j], (j + 1) as nat));
    }
    if set_edge(s, p, x) {
        let (r, k) = choose|r: RawMenuItem, k: nat|
            #[trigger] s.contains(r) && r.id == x && r.parent_id == Some(p) && #[trigger] reaches_root(
                s,
                r,
                k,
            );
        let j = choose|j: int| 0 <= j < items.len() && items[j] == r;
        lemma_reaches_rooted(items, j, k);
        assert(rooted_before(items, j));
    }
}

/// Two lists that hold the same records, each with distinct ids and each
/// listing every parent before its children, build forests with the same
/// parent-child edges: only the order of siblings may differ.
pub proof fn lemma_order_independent_edges(
    a: Seq<RawMenuItem>,
    b: Seq<RawMenuItem>,
    p: usize,
    x: usize,
)
    requires
        distinct_ids(a),
        distinct_ids(b),
        parents_first(a),
        parents_first(b),
        a.len() <= usize::MAX,
        b.len() <= usize::MAX,
        a.to_set() == b.to_set(),
    ensures
        has_edge(build_spec(a), p, x) == has_edge(build_spec(b), p, x),
{
    lemma_parents_first_edges(a, p, x);
    lemma_parents_first_edges(b, p, x);
    lemma_declared_is_set_edge(a, p, x);
    lemma_declared_is_set_edge(b, p, x);
}

/// The ids of the items among the first `n` that name `k` as their parent,
/// in input order.
pub open spec fn child_ids(items: Seq<RawMenuItem>, n: int, k: usize) -> Seq<usize>
    decreases n,
{
    if 0 < n <= items.len() {
        if items[n - 1].parent_id == Some(k) {
            child_ids(items, n - 1, k).push(items[n - 1].id)
        } else {
            child_ids(items, n - 1, k)
        }
    } else {
        Seq::empty()
    }
}

proof fn lemma_run_sibling_order(items: Seq<RawMenuItem>, n: int)
    requires
        distinct_ids(items),
        parents_first(items),
        items.len() <= usize::MAX,
        0 <= n <= items.len(),
    ensures
        forall|k: usize| #[trigger]
            run(items, n as nat).placed.contains_key(k) ==> top_ids(
                children_at(run(items, n as nat).forest, run(items, n as nat).placed[k]),
            ) == child_ids(items, n, k),
    decreases n,
{
    if n > 0 {
        lemma_run_sibling_order(items, n - 1);
        lemma_run_edges(items, n - 1);
        lemma_run_ids(items, n - 1);
        lemma_placed_paths_resolve(items, n - 1);
        lemma_seen_len(items, n - 1);
        let s = run(items, (n - 1) as nat);
        let it = items[n - 1];
        let node = node_of(s, it);
        let t = step(s, it);
        lemma_len_within(forest_ids(s.forest), seen_ids(items, n - 1));
        if s.holding.contains_key(it.id) {
            let j = choose|j: int| 0 <= j < n - 1 && items[j].parent_id == Some(it.id);
            assert(items[j].parent_id == Some(items[n - 1].id));
        }
        assert(node.children.len() == 0);
        if s.placed.contains_key(it.id) {
            let j = choose|j: int| 0 <= j < n - 1 && items[j].id == it.id && rooted_before(items, j);
            assert(items[j].id != items[n - 1].id);
        }
        assert forall|j: int| 0 <= j < n - 1 implies #[trigger] items[j].parent_id != Some(it.id) by {
            if items[j].parent_id == Some(items[n - 1].id) {
                assert(n - 1 < j);
            }
        }
        let q = match it.parent_id {
            None => Seq::<usize>::empty(),
            Some(p) => if s.placed.contains_key(p) {
                s.placed[p]
            } else {
                Seq::<usize>::empty()
            },
        };
        let attached = match it.parent_id {
            None => true,
            Some(p) => s.placed.contains_key(p),
        };
        if attached {
            lemma_width_le_ids(s.forest, q);
            let w = width_at(s.forest, q) as usize;
            let g = append_at(s.forest, q, node);
            assert(index_tree(s.placed, node, q.push(w)) == s.placed.insert(it.id, q.push(w)));
            assert(t.forest == g);
            assert(t.placed == s.placed.insert(it.id, q.push(w)));
            assert forall|k: usize| #[trigger] t.placed.contains_key(k) implies top_ids(
                children_at(t.forest, t.placed[k]),
            ) == child_ids(items, n, k) by {
                if k == it.id {
                    lemma_append_target(s.forest, q, node);
                    lemma_leads_push(g, q, w);
                    assert(top_ids(children_at(g, q.push(w))) =~= Seq::<usize>::empty());
                    assert(child_ids(items, n - 1, k) =~= Seq::<usize>::empty()) by {
                        lemma_child_ids_none(items, n - 1, k);
                    };
                } else {
                    let r = s.placed[k];
                    lemma_append_child_ids(s.forest, q, node, r);
                    if r == q {
                        assert(it.parent_id == Some(k));
                    }
                    if it.parent_id == Some(k) {
                        assert(r == q);
                    }
                }
            }
        } else {
            assert(t.forest == s.forest && t.placed == s.placed);
        }
    }
}

proof fn lemma_child_ids_none(items: Seq<RawMenuItem>, n: int, k: usize)
    requires
        0 <= n <= items.len(),
        forall|j: int| 0 <= j < n ==> #[trigger] items[j].parent_id != Some(k),
    ensures
        child_ids(items, n, k) == Seq::<usize>::empty(),
    decreases n,
{
    if n > 0 {
        lemma_child_ids_none(items, n - 1, k);
    }
}

/// Where no two items share an id and every parent is listed before its
/// children, the children of each placed node are the items that name it as
/// their parent, in the order of the input.
pub proof fn lemma_parents_first_sibling_order(items: Seq<RawMenuItem>, k: usize)
    requires
        distinct_ids(items),
        parents_first(items),
        items.len() <= usize::MAX,
        run(items, items.len()).placed.contains_key(k),
    ensures
        top_ids(children_at(build_spec(items), run(items, items.len()).placed[k])) == child_ids(
            items,
            items.len() as int,
            k,
        ),
{
    let n = items.len() as int;
    lemma_run_sibling_order(items, n);
    let s = run(items, n as nat);
    assert(s == run(items, items.len()));
    assert(s.placed.contains_key(k));
    assert(top_ids(children_at(s.forest, s.placed[k])) == child_ids(items, n, k));
}

} // verus!

use vstd::prelude::*;

verus! {

/// One record of the flat input list.
pub struct RawMenuItem {
    pub id: usize,
    pub name: String,
    pub url: String,
    pub parent_id: Option<usize>,
}

/// One node of the output forest; it owns its children.
pub struct MenuItem {
    pub id: usize,
    pub name: String,
    pub url: String,
    pub children: Vec<MenuItem>,
}

/// The mathematical shape of a `MenuItem`.
pub struct Tree {
    pub id: usize,
    pub name: Seq<char>,
    pub url: Seq<char>,
    pub children: Seq<Tree>,
}

impl MenuItem {
    /// The tree that this node and its descendants form.
    pub open spec fn tree(&self) -> Tree
        decreases self,
    {
        Tree {
            id: self.id,
            name: self.name@,
            url: self.url@,
            children: Seq::new(
                self.children@.len(),
                |i: int|
                    if 0 <= i < self.children@.len() {
                        self.children@[i].tree()
                    } else {
                        arbitrary()
                    },
            ),
        }
    }

    /// A node with the given fields; `children` holds its initial children,
    /// none when absent.
    pub fn new(id: usize, name: String, url: String, children: Option<Vec<MenuItem>>) -> (r: Self)
        ensures
            r.tree() == (Tree {
                id,
                name: name@,
                url: url@,
                children: match children {
                    Some(c) => forest_of(c@),
                    None => Seq::empty(),
                },
            }),
    {
        let r = match children {
            Some(c) => MenuItem { id, name, url, children: c },
            None => MenuItem { id, name, url, children: Vec::new() },
        };
        proof {
            lemma_tree_children(r);
            if children is None {
                assert(forest_of(r.children@) =~= Seq::empty());
            }
        }
        r
    }
}

/// The trees of a sequence of nodes.
pub open spec fn forest_of(v: Seq<MenuItem>) -> Seq<Tree> {
    Seq::new(v.len(), |i: int| v[i].tree())
}

/// The forest `f` with `c` appended to the children of the node that `path`
/// leads to; to the top level when `path` is empty. A path that leads
/// nowhere leaves the forest unchanged.
pub open spec fn append_at(f: Seq<Tree>, path: Seq<usize>, c: Tree) -> Seq<Tree>
    decreases path.len(),
{
    if path.len() == 0 {
        f.push(c)
    } else if path[0] < f.len() {
        let n = f[path[0] as int];
        f.update(
            path[0] as int,
            Tree { children: append_at(n.children, path.drop_first(), c), ..n },
        )
    } else {
        f
    }
}

/// The children of the node that `path` leads to (the top level when `path`
/// is empty); empty when `path` leads nowhere.
pub open spec fn children_at(f: Seq<Tree>, path: Seq<usize>) -> Seq<Tree>
    decreases path.len(),
{
    if path.len() == 0 {
        f
    } else if path[0] < f.len() {
        children_at(f[path[0] as int].children, path.drop_first())
    } else {
        Seq::empty()
    }
}

/// How many children the node that `path` leads to has (the top level when
/// `path` is empty); zero when `path` leads nowhere.
pub open spec fn width_at(f: Seq<Tree>, path: Seq<usize>) -> nat {
    children_at(f, path).len()
}

/// The id of the node that the nonempty `path` leads to.
pub open spec fn id_at(f: Seq<Tree>, path: Seq<usize>) -> usize
    decreases path.len(),
{
    if path.len() <= 1 {
        f[path[0] as int].id
    } else {
        id_at(f[path[0] as int].children, path.drop_first())
    }
}

proof fn lemma_tree_children(n: MenuItem)
    ensures
        n.tree().children == forest_of(n.children@),
{
    assert(n.tree().children =~= forest_of(n.children@));
}

/// Appends `c` to the children of the node that `path[k..]` leads to in
/// `nodes`; returns the index `c` received there, or `None` when the path
/// leads nowhere (then `nodes` is unchanged).
pub fn append_child(nodes: &mut Vec<MenuItem>, path: &Vec<usize>, k: usize, c: MenuItem) -> (r:
    Option<usize>)
    requires
        k <= path@.len(),
    ensures
        forest_of(final(nodes)@) == append_at(
            forest_of(old(nodes)@),
            path@.subrange(k as int, path@.len() as int),
            c.tree(),
        ),
        match r {
            Some(i) => i == width_at(
                forest_of(old(nodes)@),
                path@.subrange(k as int, path@.len() as int),
            ),
            None => forest_of(final(nodes)@) == forest_of(old(nodes)@),
        },
        r is None <==> !path_leads(
            forest_of(old(nodes)@),
            path@.subrange(k as int, path@.len() as int),
        ),
    decreases path@.len() - k,
{
    let ghost rest = path@.subrange(k as int, path@.len() as int);
    let ghost f0 = forest_of(nodes@);
    if k == path.len() {
        let i = nodes.len();
        nodes.push(c);
        assert(forest_of(nodes@) =~= f0.push(c.tree()));
        return Some(i);
    }
    let i = path[k];
    assert(rest[0] == i);
    assert(rest.drop_first() =~= path@.subrange(k + 1, path@.len() as int));
    if i >= nodes.len() {
        return None;
    }
    let ghost n0 = nodes@[i as int];
    proof {
        lemma_tree_children(n0);
    }
    let r = append_child(&mut nodes[i].children, path, k + 1, c);
    proof {
        let n1 = nodes@[i as int];
        lemma_tree_children(n1);
        assert(n1.id == n0.id && n1.name == n0.name && n1.url == n0.url);
        match r {
            Some(_) => {
                assert(forest_of(nodes@) =~= append_at(f0, rest, c.tree()));
            },
            None => {
                assert(n1.tree() == n0.tree());
                assert(forest_of(nodes@) =~= f0);
            },
        }
    }
    r
}

/// Whether `path` leads to a node of `f` (the empty path leads to the top
/// level).
pub open spec fn path_leads(f: Seq<Tree>, path: Seq<usize>) -> bool
    decreases path.len(),
{
    if path.len() == 0 {
        true
    } else if path[0] < f.len() {
        path_leads(f[path[0] as int].children, path.drop_first())
    } else {
        false
    }
}

} // verus!

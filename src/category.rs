//! The category tree: categories with children, looked up by id.
use crate::index::IndexEntry;
use std::collections::BTreeMap;
use vstd::prelude::*;

verus! {

/// A category of the site, with its sub-categories.
#[derive(Debug)]
pub struct Category {
    pub id: usize,
    pub path_name: String,
    pub name: String,
    pub description: String,
    pub parent_id: Option<usize>,
    pub children: Vec<Category>,
    pub opt_attrs: Option<BTreeMap<String, String>>,
}

/// The ids of a category and all its descendants, in preorder.
pub open spec fn tree_ids(c: Category) -> Seq<usize>
    decreases c,
{
    seq![c.id] + forest_ids(c.children@)
}

/// The ids of a list of category trees, in preorder.
pub open spec fn forest_ids(l: Seq<Category>) -> Seq<usize>
    decreases l,
{
    if l.len() == 0 {
        seq![]
    } else {
        tree_ids(l[0]) + forest_ids(l.subrange(1, l.len() as int))
    }
}

/// A category and all its descendants, in preorder.
pub open spec fn tree_nodes(c: Category) -> Seq<Category>
    decreases c,
{
    seq![c] + forest_nodes(c.children@)
}

/// The categories of a list of trees, in preorder.
pub open spec fn forest_nodes(l: Seq<Category>) -> Seq<Category>
    decreases l,
{
    if l.len() == 0 {
        seq![]
    } else {
        tree_nodes(l[0]) + forest_nodes(l.subrange(1, l.len() as int))
    }
}

/// The categories of a list of trees are those of a prefix, then those of
/// the rest.
proof fn lemma_forest_nodes_split(l: Seq<Category>, k: int)
    requires
        0 <= k <= l.len(),
    ensures
        forest_nodes(l) == forest_nodes(l.subrange(0, k)) + forest_nodes(l.subrange(k, l.len() as int)),
    decreases l.len(),
{
    if k == 0 {
        assert(l.subrange(0, 0) =~= Seq::<Category>::empty());
        assert(forest_nodes(l.subrange(0, 0)) =~= Seq::<Category>::empty());
        assert(l.subrange(0, l.len() as int) =~= l);
        assert(forest_nodes(l) =~= forest_nodes(l.subrange(0, k)) + forest_nodes(l));
    } else {
        let rest = l.subrange(1, l.len() as int);
        lemma_forest_nodes_split(rest, k - 1);
        assert(rest.subrange(0, k - 1) =~= l.subrange(1, k));
        assert(rest.subrange(k - 1, rest.len() as int) =~= l.subrange(k, l.len() as int));
        let pre = l.subrange(0, k);
        assert(pre[0] == l[0]);
        assert(pre.subrange(1, pre.len() as int) =~= l.subrange(1, k));
        assert(forest_nodes(pre) == tree_nodes(l[0]) + forest_nodes(l.subrange(1, k)));
        assert(forest_nodes(l) =~= forest_nodes(l.subrange(0, k)) + forest_nodes(l.subrange(k, l.len() as int)));
    }
}

/// Appending a tree to a list appends its categories.
proof fn lemma_forest_nodes_push(l: Seq<Category>, c: Category)
    ensures
        forest_nodes(l.push(c)) == forest_nodes(l) + tree_nodes(c),
    decreases l.len(),
{
    let t = l.push(c);
    if l.len() == 0 {
        assert(t.subrange(1, 1) =~= Seq::<Category>::empty());
        assert(t[0] == c);
        assert(forest_nodes(t.subrange(1, 1)) =~= Seq::<Category>::empty());
        assert(forest_nodes(l) =~= Seq::<Category>::empty());
        assert(forest_nodes(t) =~= forest_nodes(l) + tree_nodes(c));
    } else {
        assert(t.subrange(1, t.len() as int) =~= l.subrange(1, l.len() as int).push(c));
        lemma_forest_nodes_push(l.subrange(1, l.len() as int), c);
        assert(t[0] == l[0]);
        assert(forest_nodes(l) == tree_nodes(l[0]) + forest_nodes(l.subrange(1, l.len() as int)));
        assert(forest_nodes(t) =~= forest_nodes(l) + tree_nodes(c));
    }
}

/// The ids of the categories of a tree, in preorder, are its ids.
pub proof fn lemma_tree_nodes_ids(c: Category)
    ensures
        tree_nodes(c).map_values(|n: Category| n.id) == tree_ids(c),
    decreases c,
{
    lemma_forest_nodes_ids(c.children@);
    assert(tree_nodes(c).map_values(|n: Category| n.id) =~= seq![c.id] + forest_nodes(
        c.children@,
    ).map_values(|n: Category| n.id));
}

/// The ids of the categories of a list of trees, in preorder, are its ids.
pub proof fn lemma_forest_nodes_ids(l: Seq<Category>)
    ensures
        forest_nodes(l).map_values(|n: Category| n.id) == forest_ids(l),
    decreases l,
{
    if l.len() > 0 {
        lemma_tree_nodes_ids(l[0]);
        lemma_forest_nodes_ids(l.subrange(1, l.len() as int));
        assert(forest_nodes(l).map_values(|n: Category| n.id) =~= tree_nodes(l[0]).map_values(
            |n: Category| n.id,
        ) + forest_nodes(l.subrange(1, l.len() as int)).map_values(|n: Category| n.id));
    } else {
        assert(forest_nodes(l).map_values(|n: Category| n.id) =~= Seq::<usize>::empty());
    }
}

/// The first of `nodes` with id `id`.
pub open spec fn first_with_id(nodes: Seq<Category>, id: usize) -> Option<Category>
    decreases nodes.len(),
{
    if nodes.len() == 0 {
        None
    } else if nodes[0].id == id {
        Some(nodes[0])
    } else {
        first_with_id(nodes.drop_first(), id)
    }
}

/// The first match in two sequences after one another is the first match in
/// the first one, if any, else in the second.
proof fn lemma_first_with_id_concat(a: Seq<Category>, b: Seq<Category>, id: usize)
    ensures
        first_with_id(a + b, id) == match first_with_id(a, id) {
            Some(c) => Some(c),
            None => first_with_id(b, id),
        },
    decreases a.len(),
{
    if a.len() > 0 {
        assert((a + b).drop_first() =~= a.drop_first() + b);
        lemma_first_with_id_concat(a.drop_first(), b, id);
    } else {
        assert(a + b =~= b);
    }
}

/// An id occurs in a list of trees exactly where it occurs in one of them.
proof fn lemma_forest_contains(l: Seq<Category>, id: usize)
    ensures
        forest_ids(l).contains(id) <==> exists|k: int|
            0 <= k < l.len() && #[trigger] tree_ids(l[k]).contains(id),
    decreases l.len(),
{
    if l.len() > 0 {
        let rest = l.subrange(1, l.len() as int);
        lemma_forest_contains(rest, id);
        let t = tree_ids(l[0]);
        let f = forest_ids(rest);
        if (t + f).contains(id) {
            let j = choose|j: int| 0 <= j < (t + f).len() && (t + f)[j] == id;
            if j < t.len() {
                assert(t[j] == id);
                assert(tree_ids(l[0]).contains(id));
            } else {
                assert(f[j - t.len()] == id);
                let k = choose|k: int| 0 <= k < rest.len() && #[trigger] tree_ids(rest[k]).contains(id);
                assert(rest[k] == l[k + 1]);
            }
        }
        if exists|k: int| 0 <= k < l.len() && #[trigger] tree_ids(l[k]).contains(id) {
            let k = choose|k: int| 0 <= k < l.len() && #[trigger] tree_ids(l[k]).contains(id);
            if k == 0 {
                let j = choose|j: int| 0 <= j < t.len() && t[j] == id;
                assert((t + f)[j] == id);
            } else {
                assert(rest[k - 1] == l[k]);
                let j = choose|j: int| 0 <= j < f.len() && f[j] == id;
                assert((t + f)[t.len() + j] == id);
            }
        }
    }
}

/// An id occurs in a tree exactly where it is the root's or occurs among
/// the children.
proof fn lemma_tree_contains(c: Category, id: usize)
    ensures
        tree_ids(c).contains(id) <==> (c.id == id || exists|k: int|
            0 <= k < c.children@.len() && #[trigger] tree_ids(c.children@[k]).contains(id)),
{
    lemma_forest_contains(c.children@, id);
    let f = forest_ids(c.children@);
    let t = seq![c.id] + f;
    if t.contains(id) && c.id != id {
        let j = choose|j: int| 0 <= j < t.len() && t[j] == id;
        assert(f[j - 1] == id);
    }
    if c.id == id {
        assert(t[0] == id);
    }
    if f.contains(id) {
        let j = choose|j: int| 0 <= j < f.len() && f[j] == id;
        assert(t[j + 1] == id);
    }
}

impl Category {
    pub fn new_with_all(
        id: usize,
        path_name: String,
        name: String,
        description: String,
        parent_id: Option<usize>,
        children: Vec<Category>,
        opt_attrs: Option<BTreeMap<String, String>>,
    ) -> (r: Category)
        ensures
            r == (Category { id, path_name, name, description, parent_id, children, opt_attrs }),
    {
        Category { id, path_name, name, description, parent_id, children, opt_attrs }
    }

    /// A top-level category without children.
    pub fn new(id: usize, path_name: String, name: String, description: String) -> (r: Category)
        ensures
            r.id == id,
            r.path_name == path_name,
            r.name == name,
            r.description == description,
            r.parent_id is None,
            r.children@.len() == 0,
            r.opt_attrs is None,
    {
        Category::new_with_all(id, path_name, name, description, None, Vec::new(), None)
    }

    /// A category without children, under the given parent.
    pub fn new_with_parent(
        id: usize,
        path_name: String,
        name: String,
        description: String,
        parent_id: Option<usize>,
    ) -> (r: Category)
        ensures
            r.id == id,
            r.path_name == path_name,
            r.name == name,
            r.description == description,
            r.parent_id == parent_id,
            r.children@.len() == 0,
            r.opt_attrs is None,
    {
        Category::new_with_all(id, path_name, name, description, parent_id, Vec::new(), None)
    }

    /// Adds `child` after the existing children.
    pub fn append_child(&mut self, child: Category)
        ensures
            final(self).children@ == old(self).children@.push(child),
            final(self).id == old(self).id,
            final(self).parent_id == old(self).parent_id,
    {
        self.children.push(child);
    }

    /// Whether the category or one of its descendants has id `id`.
    pub fn exists_id(&self, id: usize) -> (r: bool)
        ensures
            r == tree_ids(*self).contains(id),
        decreases self,
    {
        proof {
            lemma_tree_contains(*self, id);
        }
        if self.id == id {
            return true;
        }
        let mut k: usize = 0;
        while k < self.children.len()
            invariant
                k <= self.children.len(),
                self.id != id,
                forall|j: int| 0 <= j < k ==> !#[trigger] tree_ids(self.children@[j]).contains(id),
            decreases self.children.len() - k,
        {
            assert(decreases_to!(self => self.children@[k as int]));
            if self.children[k].exists_id(id) {
                proof {
                    lemma_tree_contains(*self, id);
                }
                return true;
            }
            k = k + 1;
        }
        false
    }

    /// The first category in preorder, this one or a descendant, with id
    /// `id`.
    pub fn search_id(&self, id: usize) -> (r: Option<&Category>)
        ensures
            r is None <==> !tree_ids(*self).contains(id),
            r matches Some(c) ==> c.id == id && Some(*c) == first_with_id(tree_nodes(*self), id),
            r is None ==> first_with_id(tree_nodes(*self), id) is None,
        decreases self,
    {
        proof {
            lemma_tree_contains(*self, id);
            lemma_forest_nodes_push(Seq::<Category>::empty(), *self);
        }
        if self.id == id {
            proof {
                lemma_first_with_id_concat(seq![*self], forest_nodes(self.children@), id);
            }
            return Some(self);
        }
        proof {
            assert(seq![*self].drop_first() =~= Seq::<Category>::empty());
            assert(first_with_id(Seq::<Category>::empty(), id) is None);
            assert(first_with_id(seq![*self], id) is None);
        }
        let mut k: usize = 0;
        assert(self.children@.subrange(0, 0) =~= Seq::<Category>::empty());
        assert(forest_nodes(self.children@.subrange(0, 0)) =~= Seq::<Category>::empty());
        while k < self.children.len()
            invariant
                k <= self.children.len(),
                self.id != id,
                first_with_id(seq![*self], id) is None,
                forall|j: int| 0 <= j < k ==> !#[trigger] tree_ids(self.children@[j]).contains(id),
                first_with_id(forest_nodes(self.children@.subrange(0, k as int)), id) is None,
            decreases self.children.len() - k,
        {
            assert(decreases_to!(self => self.children@[k as int]));
            proof {
                lemma_forest_nodes_push(self.children@.subrange(0, k as int), self.children@[k as int]);
                assert(self.children@.subrange(0, k + 1) =~= self.children@.subrange(
                    0,
                    k as int,
                ).push(self.children@[k as int]));
                lemma_first_with_id_concat(
                    forest_nodes(self.children@.subrange(0, k as int)),
                    tree_nodes(self.children@[k as int]),
                    id,
                );
            }
            match self.children[k].search_id(id) {
                Some(c) => {
                    proof {
                        lemma_tree_contains(*self, id);
                        lemma_first_with_id_concat(
                            forest_nodes(self.children@.subrange(0, k + 1)),
                            forest_nodes(self.children@.subrange(k + 1, self.children@.len() as int)),
                            id,
                        );
                        lemma_forest_nodes_split(self.children@, k + 1);
                        lemma_first_with_id_concat(seq![*self], forest_nodes(self.children@), id);
                    }
                    return Some(c);
                },
                None => {},
            }
            k = k + 1;
        }
        proof {
            assert(self.children@.subrange(0, self.children@.len() as int) =~= self.children@);
            lemma_first_with_id_concat(seq![*self], forest_nodes(self.children@), id);
        }
        None
    }

    /// The category and all its descendants, in preorder.
    pub fn get_descendants(&self) -> (r: Vec<&Category>)
        ensures
            r@.map_values(|c: &Category| *c) == tree_nodes(*self),
            r@.map_values(|c: &Category| c.id) == tree_ids(*self),
        decreases self,
    {
        let mut r: Vec<&Category> = Vec::new();
        r.push(self);
        let mut k: usize = 0;
        assert(r@.map_values(|c: &Category| *c) =~= seq![*self]);
        assert(self.children@.subrange(0, 0) =~= Seq::<Category>::empty());
        assert(forest_nodes(self.children@.subrange(0, 0)) =~= Seq::<Category>::empty());
        while k < self.children.len()
            invariant
                k <= self.children.len(),
                r@.map_values(|c: &Category| *c) == seq![*self] + forest_nodes(
                    self.children@.subrange(0, k as int),
                ),
            decreases self.children.len() - k,
        {
            assert(decreases_to!(self => self.children@[k as int]));
            let mut sub = self.children[k].get_descendants();
            let ghost r0 = r@;
            let ghost s0 = sub@;
            r.append(&mut sub);
            proof {
                lemma_forest_nodes_push(self.children@.subrange(0, k as int), self.children@[k as int]);
                assert(self.children@.subrange(0, k + 1) =~= self.children@.subrange(
                    0,
                    k as int,
                ).push(self.children@[k as int]));
                assert(r@.map_values(|c: &Category| *c) =~= r0.map_values(|c: &Category| *c)
                    + s0.map_values(|c: &Category| *c));
            }
            k = k + 1;
        }
        proof {
            assert(self.children@.subrange(0, self.children@.len() as int) =~= self.children@);
            lemma_tree_nodes_ids(*self);
            let nodes = r@.map_values(|c: &Category| *c);
            assert(r@.map_values(|c: &Category| c.id) =~= nodes.map_values(|n: Category| n.id));
        }
        r
    }

    /// The category as an entry of a resolution index.
    pub fn index_entry(&self) -> (r: IndexEntry)
        ensures
            r.id == self.id,
            r.name@ == self.name@,
            r.path_name@ == self.path_name@,
    {
        IndexEntry { id: self.id, name: self.name.clone(), path_name: self.path_name.clone() }
    }

    /// Puts `descendant` under the first category in preorder, this one or a
    /// descendant, whose id is its parent id. Returns it back where there is
    /// none, leaving the tree's ids as they were.
    pub fn insert_descendant_if_match(&mut self, descendant: Category) -> (r: Option<Category>)
        ensures
            r is None <==> (descendant.parent_id matches Some(p) && tree_ids(*old(self)).contains(
                p,
            )),
            r matches Some(d) ==> d == descendant && tree_ids(*final(self)) == tree_ids(
                *old(self),
            ),
            r is None ==> tree_ids(*final(self)).to_multiset() == tree_ids(
                *old(self),
            ).to_multiset().add(tree_ids(descendant).to_multiset()),
            final(self).id == old(self).id,
    {
        let mut taken = Category::new(0, String::new(), String::new(), String::new());
        std::mem::swap(self, &mut taken);
        let (c, r) = insert_into(taken, descendant);
        *self = c;
        r
    }
}

/// Appending a tree to a list appends its ids.
proof fn lemma_forest_ids_push(l: Seq<Category>, c: Category)
    ensures
        forest_ids(l.push(c)) == forest_ids(l) + tree_ids(c),
    decreases l.len(),
{
    let t = l.push(c);
    if l.len() == 0 {
        assert(t.subrange(1, 1) =~= Seq::<Category>::empty());
        assert(t[0] == c);
        assert(forest_ids(t.subrange(1, 1)) =~= Seq::<usize>::empty());
        assert(forest_ids(l) =~= Seq::<usize>::empty());
        assert(forest_ids(t) =~= forest_ids(l) + tree_ids(c));
    } else {
        assert(t.subrange(1, t.len() as int) =~= l.subrange(1, l.len() as int).push(c));
        lemma_forest_ids_push(l.subrange(1, l.len() as int), c);
        assert(t[0] == l[0]);
        assert(forest_ids(t) == tree_ids(l[0]) + (forest_ids(l.subrange(1, l.len() as int))
            + tree_ids(c)));
        assert(forest_ids(l) == tree_ids(l[0]) + forest_ids(l.subrange(1, l.len() as int)));
        assert(forest_ids(t) =~= forest_ids(l) + tree_ids(c));
    }
}

/// `c` with `d` put under the first category in preorder whose id is the
/// parent id of `d`; `d` back where there is none.
fn insert_into(c: Category, d: Category) -> (r: (Category, Option<Category>))
    ensures
        r.1 is None <==> (d.parent_id matches Some(p) && tree_ids(c).contains(p)),
        r.1 matches Some(x) ==> x == d && tree_ids(r.0) == tree_ids(c),
        r.1 is None ==> tree_ids(r.0).to_multiset() == tree_ids(c).to_multiset().add(
            tree_ids(d).to_multiset(),
        ),
        r.0.id == c.id,
    decreases c, 0nat,
{
    let ghost c0 = c;
    let Category { id, path_name, name, description, parent_id, children, opt_attrs } = c;
    let parent = match d.parent_id {
        Some(p) => p,
        None => {
            let c = Category { id, path_name, name, description, parent_id, children, opt_attrs };
            proof {
                assert(c.children@ == c0.children@);
            }
            return (c, Some(d));
        },
    };
    proof {
        lemma_tree_contains(c0, parent);
        lemma_forest_contains(c0.children@, parent);
    }
    if parent == id {
        let mut children = children;
        let ghost d0 = d;
        children.push(d);
        let c = Category { id, path_name, name, description, parent_id, children, opt_attrs };
        proof {
            lemma_forest_ids_push(c0.children@, d0);
            assert(tree_ids(c) =~= tree_ids(c0) + tree_ids(d0));
            vstd::seq_lib::lemma_multiset_commutative(tree_ids(c0), tree_ids(d0));
        }
        return (c, None);
    }
    proof {
        assert(decreases_to!(c0 => c0.children));
    }
    let (children, back) = insert_into_list(children, d);
    let c = Category { id, path_name, name, description, parent_id, children, opt_attrs };
    proof {
        if back is Some {
            assert(tree_ids(c) == tree_ids(c0));
        } else {
            vstd::seq_lib::lemma_multiset_commutative(seq![id], forest_ids(c.children@));
            vstd::seq_lib::lemma_multiset_commutative(seq![id], forest_ids(c0.children@));
            assert(tree_ids(c).to_multiset() =~= tree_ids(c0).to_multiset().add(
                tree_ids(d).to_multiset(),
            ));
        }
    }
    (c, back)
}

/// `list` with `d` put under the first category in preorder, over the
/// trees in order, whose id is the parent id of `d`; `d` back where there is
/// none.
fn insert_into_list(list: Vec<Category>, d: Category) -> (r: (Vec<Category>, Option<Category>))
    ensures
        r.1 is None <==> (d.parent_id matches Some(p) && forest_ids(list@).contains(p)),
        r.1 matches Some(x) ==> x == d && forest_ids(r.0@) == forest_ids(list@),
        r.1 is None ==> forest_ids(r.0@).to_multiset() == forest_ids(list@).to_multiset().add(
            tree_ids(d).to_multiset(),
        ),
    decreases list, 1nat,
{
    let ghost l0 = list@;
    let ghost n = list@.len();
    let parent = match d.parent_id {
        Some(p) => p,
        None => {
            return (list, Some(d));
        },
    };
    proof {
        lemma_forest_contains(l0, parent);
    }
    let mut rest = list;
    let mut done: Vec<Category> = Vec::new();
    let mut pending: Option<Category> = Some(d);
    while rest.len() > 0
        invariant
            done@.len() + rest@.len() == n,
            l0 == list@,
            n == l0.len(),
            rest@ == l0.subrange(n - rest@.len(), n as int),
            d.parent_id == Some(parent),
            pending is Some ==> {
                &&& pending->0 == d
                &&& forest_ids(done@) == forest_ids(l0.subrange(0, done@.len() as int))
                &&& forall|j: int|
                    0 <= j < done@.len() ==> !#[trigger] tree_ids(l0[j]).contains(parent)
            },
            pending is None ==> {
                &&& exists|j: int| 0 <= j < done@.len() && #[trigger] tree_ids(l0[j]).contains(parent)
                &&& forest_ids(done@).to_multiset() == forest_ids(
                    l0.subrange(0, done@.len() as int),
                ).to_multiset().add(tree_ids(d).to_multiset())
            },
        decreases rest@.len(),
    {
        let k = done.len();
        let child = rest.remove(0);
        proof {
            assert(child == l0[k as int]);
            assert(decreases_to!(list => list@[k as int]));
            assert(l0.subrange(0, k + 1) =~= l0.subrange(0, k as int).push(child));
            assert(rest@ =~= l0.subrange(n - rest@.len(), n as int));
            lemma_forest_ids_push(l0.subrange(0, k as int), child);
        }
        let ghost done0 = done@;
        match pending {
            Some(p) => {
                let (updated, back) = insert_into(child, p);
                let ghost u = updated;
                done.push(updated);
                proof {
                    lemma_forest_ids_push(done0, u);
                    vstd::seq_lib::lemma_multiset_commutative(forest_ids(done0), tree_ids(u));
                    vstd::seq_lib::lemma_multiset_commutative(
                        forest_ids(l0.subrange(0, k as int)),
                        tree_ids(child),
                    );
                    if back is None {
                        assert(tree_ids(l0[k as int]).contains(parent));
                        assert(forest_ids(done@).to_multiset() =~= forest_ids(
                            l0.subrange(0, k + 1),
                        ).to_multiset().add(tree_ids(d).to_multiset()));
                    }
                }
                pending = back;
            },
            None => {
                let ghost ch = child;
                done.push(child);
                proof {
                    lemma_forest_ids_push(done0, ch);
                    vstd::seq_lib::lemma_multiset_commutative(forest_ids(done0), tree_ids(ch));
                    vstd::seq_lib::lemma_multiset_commutative(
                        forest_ids(l0.subrange(0, k as int)),
                        tree_ids(ch),
                    );
                    assert(forest_ids(done@).to_multiset() =~= forest_ids(
                        l0.subrange(0, k + 1),
                    ).to_multiset().add(tree_ids(d).to_multiset()));
                }
            },
        }
    }
    proof {
        assert(l0.subrange(0, n as int) =~= l0);
    }
    (done, pending)
}

/// Puts `descendant` under the first category in preorder, over the trees of
/// `list` in order, whose id is its parent id. Returns it back where there is
/// none, leaving the ids as they were.
pub fn insert_descendant_to_category_list(list: &mut Vec<Category>, descendant: Category) -> (r:
    Option<Category>)
    ensures
        r is None <==> (descendant.parent_id matches Some(p) && forest_ids(old(list)@).contains(p)),
        r matches Some(d) ==> d == descendant && forest_ids(final(list)@) == forest_ids(
            old(list)@,
        ),
        r is None ==> forest_ids(final(list)@).to_multiset() == forest_ids(
            old(list)@,
        ).to_multiset().add(tree_ids(descendant).to_multiset()),
{
    let mut taken: Vec<Category> = Vec::new();
    std::mem::swap(list, &mut taken);
    let (updated, back) = insert_into_list(taken, descendant);
    *list = updated;
    back
}

/// The first category in preorder, over the trees of `list` in order, with
/// id `id`.
pub fn search_id_in_category_list(list: &[Category], id: usize) -> (r: Option<&Category>)
    ensures
        r is None <==> !forest_ids(list@).contains(id),
        r matches Some(c) ==> c.id == id && Some(*c) == first_with_id(forest_nodes(list@), id),
        r is None ==> first_with_id(forest_nodes(list@), id) is None,
{
    proof {
        lemma_forest_contains(list@, id);
    }
    let mut k: usize = 0;
    assert(list@.subrange(0, 0) =~= Seq::<Category>::empty());
    assert(forest_nodes(list@.subrange(0, 0)) =~= Seq::<Category>::empty());
    while k < list.len()
        invariant
            k <= list.len(),
            forall|j: int| 0 <= j < k ==> !#[trigger] tree_ids(list@[j]).contains(id),
            forest_ids(list@).contains(id) <==> exists|j: int|
                0 <= j < list@.len() && #[trigger] tree_ids(list@[j]).contains(id),
            first_with_id(forest_nodes(list@.subrange(0, k as int)), id) is None,
        decreases list.len() - k,
    {
        proof {
            lemma_forest_nodes_push(list@.subrange(0, k as int), list@[k as int]);
            assert(list@.subrange(0, k + 1) =~= list@.subrange(0, k as int).push(list@[k as int]));
            lemma_first_with_id_concat(
                forest_nodes(list@.subrange(0, k as int)),
                tree_nodes(list@[k as int]),
                id,
            );
        }
        match list[k].search_id(id) {
            Some(c) => {
                proof {
                    lemma_forest_nodes_split(list@, k + 1);
                    lemma_first_with_id_concat(
                        forest_nodes(list@.subrange(0, k + 1)),
                        forest_nodes(list@.subrange(k + 1, list@.len() as int)),
                        id,
                    );
                }
                return Some(c);
            },
            None => {},
        }
        k = k + 1;
    }
    proof {
        assert(list@.subrange(0, list@.len() as int) =~= list@);
    }
    None
}

/// Whether a category of the trees of `list` has id `id`.
pub fn exists_id_in_category_list(list: &[Category], id: usize) -> (r: bool)
    ensures
        r == forest_ids(list@).contains(id),
{
    proof {
        lemma_forest_contains(list@, id);
    }
    let mut k: usize = 0;
    while k < list.len()
        invariant
            k <= list.len(),
            forall|j: int| 0 <= j < k ==> !#[trigger] tree_ids(list@[j]).contains(id),
            forest_ids(list@).contains(id) <==> exists|j: int|
                0 <= j < list@.len() && #[trigger] tree_ids(list@[j]).contains(id),
        decreases list.len() - k,
    {
        if list[k].exists_id(id) {
            return true;
        }
        k = k + 1;
    }
    false
}

/// Categories by id; a later one replaces an earlier one with the same id.
pub open spec fn category_map(cs: Seq<Category>) -> Map<usize, Category>
    decreases cs.len(),
{
    if cs.len() == 0 {
        Map::empty()
    } else {
        category_map(cs.drop_last()).insert(cs.last().id, cs.last())
    }
}

/// All categories of the trees of `categories` by id; where two share an
/// id, the later one in preorder is kept.
pub fn get_index_map_from_categories(categories: &[Category]) -> (r: BTreeMap<usize, &Category>)
    ensures
        r@.dom() == category_map(forest_nodes(categories@)).dom(),
        forall|k: usize| #[trigger]
            r@.contains_key(k) ==> *r@[k] == category_map(forest_nodes(categories@))[k],
{
    broadcast use vstd::laws_cmp::group_laws_cmp;
    let mut r: BTreeMap<usize, &Category> = BTreeMap::new();
    let mut k: usize = 0;
    assert(categories@.subrange(0, 0) =~= Seq::<Category>::empty());
    assert(forest_nodes(categories@.subrange(0, 0)) =~= Seq::<Category>::empty());
    while k < categories.len()
        invariant
            k <= categories.len(),
            r@.dom() == category_map(forest_nodes(categories@.subrange(0, k as int))).dom(),
            forall|j: usize| #[trigger]
                r@.contains_key(j) ==> *r@[j] == category_map(
                    forest_nodes(categories@.subrange(0, k as int)),
                )[j],
        decreases categories.len() - k,
    {
        let all = categories[k].get_descendants();
        let ghost before = forest_nodes(categories@.subrange(0, k as int));
        let ghost nodes = tree_nodes(categories@[k as int]);
        let mut j: usize = 0;
        assert(before + nodes.subrange(0, 0) =~= before);
        while j < all.len()
            invariant
                j <= all.len(),
                all@.map_values(|c: &Category| *c) == nodes,
                r@.dom() == category_map(before + nodes.subrange(0, j as int)).dom(),
                forall|i: usize| #[trigger]
                    r@.contains_key(i) ==> *r@[i] == category_map(
                        before + nodes.subrange(0, j as int),
                    )[i],
            decreases all.len() - j,
        {
            let c = all[j];
            r.insert(c.id, c);
            proof {
                assert(nodes[j as int] == *c);
                assert((before + nodes.subrange(0, j + 1)).drop_last() =~= before + nodes.subrange(
                    0,
                    j as int,
                ));
                let m = category_map(before + nodes.subrange(0, j + 1));
                assert(r@.dom() =~= m.dom());
                assert forall|i: usize| #[trigger] r@.contains_key(i) implies *r@[i] == m[i] by {}
            }
            j = j + 1;
        }
        proof {
            assert(nodes.subrange(0, nodes.len() as int) =~= nodes);
            lemma_forest_nodes_push(categories@.subrange(0, k as int), categories@[k as int]);
            assert(categories@.subrange(0, k + 1) =~= categories@.subrange(0, k as int).push(
                categories@[k as int],
            ));
        }
        k = k + 1;
    }
    proof {
        assert(categories@.subrange(0, categories@.len() as int) =~= categories@);
    }
    r
}

} // verus!

use vstd::prelude::*;

verus! {

/// What a node records: its id, its parent's id, and its children's ids.
pub struct NodeView {
    pub id: Seq<char>,
    pub parent: Option<Seq<char>>,
    pub children: Set<Seq<char>>,
}

/// An optional id as plain characters.
pub open spec fn opt_view(o: Option<String>) -> Option<Seq<char>> {
    match o {
        Some(s) => Some(s@),
        None => None,
    }
}

/// A list of ids as a set.
pub open spec fn ids_of(v: Seq<String>) -> Set<Seq<char>> {
    v.map_values(|s: String| s@).to_set()
}

/// One entry of a file tree: an id, the id of its parent (none for a root),
/// and the ids of its children.
#[derive(Debug, Clone, Default)]
pub struct FileNode {
    pub id: String,
    pub parent: Option<String>,
    pub children: Vec<String>,
}

impl View for FileNode {
    type V = NodeView;

    open spec fn view(&self) -> NodeView {
        NodeView { id: self.id@, parent: opt_view(self.parent), children: ids_of(self.children@) }
    }
}

fn copy_opt(o: &Option<String>) -> (r: Option<String>)
    ensures
        opt_view(r) == opt_view(*o),
{
    match o {
        Some(s) => Some(s.clone()),
        None => None,
    }
}

fn copy_ids(v: &Vec<String>) -> (r: Vec<String>)
    ensures
        r@.map_values(|s: String| s@) == v@.map_values(|s: String| s@),
{
    let mut r: Vec<String> = Vec::new();
    let mut i: usize = 0;
    while i < v.len()
        invariant
            i <= v.len(),
            r@.map_values(|s: String| s@) == v@.subrange(0, i as int).map_values(|s: String| s@),
        decreases v.len() - i,
    {
        r.push(v[i].clone());
        i = i + 1;
        assert(v@.subrange(0, i as int).map_values(|s: String| s@) =~= v@.subrange(0, i - 1).map_values(|s: String| s@).push(v@[i - 1]@));
    }
    assert(v@.subrange(0, v.len() as int) =~= v@);
    r
}

impl FileNode {
    /// A node with the given parent and children.
    pub fn new(id: String, parent: Option<String>, children: Vec<String>) -> (r: FileNode)
        ensures
            r.id@ == id@,
            opt_view(r.parent) == opt_view(parent),
            r.children@ == children@,
    {
        FileNode { id, parent, children }
    }

    /// A node without a parent.
    pub fn new_root(id: String, children: Vec<String>) -> (r: FileNode)
        ensures
            r.id@ == id@,
            r.parent is None,
            r.children@ == children@,
    {
        FileNode { id, parent: None, children }
    }

    /// A node below `parent_id`.
    pub fn new_with_parent(id: String, parent_id: String, children: Vec<String>) -> (r: FileNode)
        ensures
            r.id@ == id@,
            opt_view(r.parent) == Some(parent_id@),
            r.children@ == children@,
    {
        FileNode { id, parent: Some(parent_id), children }
    }

    /// Whether the node has no parent.
    pub fn is_root(&self) -> (r: bool)
        ensures
            r == (self.parent is None),
    {
        self.parent.is_none()
    }

    /// A copy of the node.
    pub fn duplicate(&self) -> (r: FileNode)
        ensures
            r@ == self@,
    {
        FileNode { id: self.id.clone(), parent: copy_opt(&self.parent), children: copy_ids(&self.children) }
    }

    /// Records `child` among the children, once.
    pub fn add_child(&mut self, child: String)
        ensures
            final(self)@ == (NodeView { children: old(self)@.children.insert(child@), ..old(self)@ }),
    {
        let n = self.children.len();
        let mut i: usize = 0;
        while i < n
            invariant
                n == self.children.len(),
                i <= n,
                forall|j: int| 0 <= j < i ==> self.children@[j]@ != child@,
            decreases n - i,
        {
            if self.children[i] == child {
                proof {
                    let ks = self.children@.map_values(|s: String| s@);
                    assert(ks[i as int] == child@);
                    assert(ids_of(self.children@) =~= ids_of(self.children@).insert(child@));
                }
                return;
            }
            i = i + 1;
        }
        let ghost before = self.children@;
        self.children.push(child);
        proof {
            assert(self.children@.map_values(|s: String| s@) =~= before.map_values(|s: String| s@).push(child@));
            crate::model::lemma_push_to_set(before.map_values(|s: String| s@), child@);
        }
    }
}


impl Default for FileTree {
    fn default() -> (r: FileTree)
        ensures
            r.wf(),
            r.nodes_view() == Map::<Seq<char>, NodeView>::empty(),
            r.root_view() == (NodeView { id: Seq::empty(), parent: None, children: Set::empty() }),
    {
        FileTree::new(String::new())
    }
}

/// Why a file tree is not well rooted.
#[derive(Debug, Clone, PartialEq, Eq)]
pub enum TreeError {
    /// `child` names `parent` as its parent, and the tree has no such node.
    MissingParent { parent: String, child: String },
    /// No node is without a parent.
    NoRoot,
    /// More than one node is without a parent; the count is given.
    ManyRoots(usize),
}

/// Whether the node at `k` names a parent that the tree lacks.
pub open spec fn orphan(m: Map<Seq<char>, NodeView>, k: Seq<char>) -> bool {
    m.contains_key(k) && match m[k].parent {
        Some(pid) => !m.contains_key(pid),
        None => false,
    }
}

/// The ids of the nodes without a parent.
pub open spec fn root_ids(m: Map<Seq<char>, NodeView>) -> Set<Seq<char>> {
    m.dom().filter(|k: Seq<char>| m[k].parent is None)
}

/// `m` with `id` recorded as a child of `pid`; a node `pid` without a parent
/// is created where there is none.
pub open spec fn with_child(m: Map<Seq<char>, NodeView>, pid: Seq<char>, id: Seq<char>) -> Map<
    Seq<char>,
    NodeView,
> {
    if m.contains_key(pid) {
        m.insert(pid, NodeView { children: m[pid].children.insert(id), ..m[pid] })
    } else {
        m.insert(pid, NodeView { id: pid, parent: None, children: Set::empty().insert(id) })
    }
}

/// `m` after recording the item `id` found below `parent`: the parent learns
/// of the child, then `id` is stored as a fresh node without children.
pub open spec fn item_step(
    m: Map<Seq<char>, NodeView>,
    id: Seq<char>,
    parent: Option<Seq<char>>,
) -> Map<Seq<char>, NodeView> {
    let m1 = match parent {
        Some(pid) => with_child(m, pid, id),
        None => m,
    };
    m1.insert(id, NodeView { id, parent, children: Set::empty() })
}

/// The nodes that recording `items` in order gives, starting from none.
pub open spec fn assembled(items: Seq<(Seq<char>, Option<Seq<char>>)>) -> Map<Seq<char>, NodeView>
    decreases items.len(),
{
    if items.len() == 0 {
        Map::empty()
    } else {
        item_step(assembled(items.drop_last()), items.last().0, items.last().1)
    }
}

/// A tree of nodes keyed by id, with a designated root.
pub struct FileTree {
    nodes: Vec<FileNode>,
    index: Ghost<Map<Seq<char>, NodeView>>,
    root: FileNode,
}

impl FileTree {
    /// The nodes, keyed by id.
    pub closed spec fn nodes_view(&self) -> Map<Seq<char>, NodeView> {
        self.index@
    }

    /// The designated root.
    pub closed spec fn root_view(&self) -> NodeView {
        self.root@
    }

    /// The designated root.
    pub fn root(&self) -> (r: &FileNode)
        ensures
            r@ == self.root_view(),
    {
        &self.root
    }

    /// Makes `node` the designated root, leaving the nodes as they are.
    pub fn set_root(&mut self, node: FileNode)
        requires
            old(self).wf(),
        ensures
            final(self).wf(),
            final(self).nodes_view() == old(self).nodes_view(),
            final(self).root_view() == node@,
    {
        self.root = node;
    }

    /// The stored ids, in storage order.
    pub closed spec fn id_seq(&self) -> Seq<Seq<char>> {
        self.nodes@.map_values(|n: FileNode| n.id@)
    }

    /// Each id is stored once, and the view holds exactly the stored nodes.
    pub closed spec fn wf(&self) -> bool {
        &&& self.id_seq().no_duplicates()
        &&& forall|i: int|
            #![trigger self.id_seq()[i]]
            0 <= i < self.id_seq().len() ==> self.index@.contains_key(self.id_seq()[i])
                && self.index@[self.id_seq()[i]] == self.nodes[i]@
        &&& forall|k: Seq<char>| #[trigger] self.index@.contains_key(k) ==> self.id_seq().contains(k)
        &&& self.index@.dom().finite()
    }

    /// A tree without nodes whose root is a childless node `root_id`.
    pub fn new(root_id: String) -> (r: FileTree)
        ensures
            r.wf(),
            r.nodes_view() == Map::<Seq<char>, NodeView>::empty(),
            r.root_view() == (NodeView { id: root_id@, parent: None, children: Set::empty() }),
    {
        let r = FileTree {
            nodes: Vec::new(),
            index: Ghost(Map::empty()),
            root: FileNode::new_root(root_id, Vec::new()),
        };
        assert(r.id_seq() =~= Seq::<Seq<char>>::empty());
        assert(ids_of(r.root.children@) =~= Set::<Seq<char>>::empty());
        r
    }

    fn find(&self, id: &String) -> (r: Option<usize>)
        requires
            self.wf(),
        ensures
            match r {
                Some(i) => i < self.nodes.len() && self.id_seq()[i as int] == id@,
                None => !self.nodes_view().contains_key(id@),
            },
    {
        let n = self.nodes.len();
        let mut i: usize = 0;
        while i < n
            invariant
                n == self.nodes.len(),
                i <= n,
                forall|j: int| 0 <= j < i ==> self.id_seq()[j] != id@,
            decreases n - i,
        {
            if self.nodes[i].id == *id {
                return Some(i);
            }
            i = i + 1;
        }
        None
    }

    /// The node with id `id`, if there is one.
    pub fn get_node(&self, id: &String) -> (r: Option<&FileNode>)
        requires
            self.wf(),
        ensures
            match r {
                Some(n) => self.nodes_view().contains_key(id@) && n@ == self.nodes_view()[id@],
                None => !self.nodes_view().contains_key(id@),
            },
    {
        match self.find(id) {
            Some(i) => {
                proof {
                    assert(self.index@.contains_key(self.id_seq()[i as int]));
                }
                Some(&self.nodes[i])
            },
            None => None,
        }
    }

    /// Stores `node` under its id, replacing any node with that id.
    pub fn insert_node(&mut self, node: FileNode)
        requires
            old(self).wf(),
        ensures
            final(self).wf(),
            final(self).nodes_view() == old(self).nodes_view().insert(node.id@, node@),
            final(self).root_view() == old(self).root_view(),
    {
        let ghost k = node.id@;
        let ghost nv = node@;
        match self.find(&node.id) {
            Some(i) => {
                self.nodes.set(i, node);
                self.index = Ghost(self.index@.insert(k, nv));
                assert(self.id_seq() =~= old(self).id_seq());
                assert forall|j: int|
                    #![trigger self.id_seq()[j]]
                    0 <= j < self.id_seq().len() implies self.index@.contains_key(self.id_seq()[j])
                        && self.index@[self.id_seq()[j]] == self.nodes[j]@ by {
                    if j != i {
                        assert(old(self).index@.contains_key(old(self).id_seq()[j]));
                    }
                }
                assert forall|key: Seq<char>| #[trigger] self.index@.contains_key(key) implies self.id_seq().contains(key) by {
                    if key == k {
                        assert(self.id_seq()[i as int] == key);
                    } else {
                        assert(old(self).index@.contains_key(key));
                    }
                }
            },
            None => {
                self.nodes.push(node);
                self.index = Ghost(self.index@.insert(k, nv));
                let ghost m = old(self).id_seq().len() as int;
                assert(self.id_seq() =~= old(self).id_seq().push(k));
                assert forall|a: int, b: int| 0 <= a < b < self.id_seq().len() implies self.id_seq()[a] != self.id_seq()[b] by {
                    if b == m {
                        assert(old(self).index@.contains_key(old(self).id_seq()[a]));
                    }
                }
                assert forall|j: int|
                    #![trigger self.id_seq()[j]]
                    0 <= j < self.id_seq().len() implies self.index@.contains_key(self.id_seq()[j])
                        && self.index@[self.id_seq()[j]] == self.nodes[j]@ by {
                    if j < m {
                        assert(old(self).index@.contains_key(old(self).id_seq()[j]));
                        assert(old(self).id_seq()[j] != k);
                    }
                }
                assert forall|key: Seq<char>| #[trigger] self.index@.contains_key(key) implies self.id_seq().contains(key) by {
                    if key == k {
                        assert(self.id_seq()[m] == key);
                    } else {
                        assert(old(self).index@.contains_key(key));
                        let j = choose|j: int| 0 <= j < old(self).id_seq().len() && old(self).id_seq()[j] == key;
                        assert(self.id_seq()[j] == key);
                    }
                }
            },
        }
    }

    /// Records an item `id` found below `parent` (none for a top item): the
    /// parent learns of the child, and `id` is stored as a fresh node.
    pub fn insert_item(&mut self, id: String, parent: Option<String>)
        requires
            old(self).wf(),
        ensures
            final(self).wf(),
            final(self).nodes_view() == item_step(old(self).nodes_view(), id@, opt_view(parent)),
            final(self).root_view() == old(self).root_view(),
    {
        match &parent {
            Some(pid) => {
                match self.get_node(pid) {
                    Some(existing) => {
                        let mut updated = existing.duplicate();
                        updated.add_child(id.clone());
                        self.insert_node(updated);
                    },
                    None => {
                        let mut children: Vec<String> = Vec::new();
                        children.push(id.clone());
                        proof {
                            assert(children@.map_values(|s: String| s@) =~= Seq::empty().push(id@));
                            crate::model::lemma_push_to_set(Seq::empty(), id@);
                            assert(Seq::<Seq<char>>::empty().to_set() =~= Set::empty());
                            assert(ids_of(children@) =~= Set::empty().insert(id@));
                        }
                        self.insert_node(FileNode::new_root(pid.clone(), children));
                    },
                }
            },
            None => {},
        }
        let node = FileNode::new(id, parent, Vec::new());
        proof {
            assert(ids_of(node.children@) =~= Set::<Seq<char>>::empty());
        }
        self.insert_node(node);
    }

    /// Checks that every named parent exists and that exactly one node has
    /// no parent, and gives that node.
    pub fn check_root(&self) -> (r: Result<FileNode, TreeError>)
        requires
            self.wf(),
        ensures
            match r {
                Ok(node) => (forall|k: Seq<char>| !orphan(self.nodes_view(), k))
                    && root_ids(self.nodes_view()).len() == 1
                    && root_ids(self.nodes_view()).contains(node.id@)
                    && node@ == self.nodes_view()[node.id@],
                Err(TreeError::MissingParent { parent, child }) => orphan(self.nodes_view(), child@)
                    && self.nodes_view()[child@].parent == Some(parent@),
                Err(TreeError::NoRoot) => (forall|k: Seq<char>| !orphan(self.nodes_view(), k))
                    && root_ids(self.nodes_view()).len() == 0,
                Err(TreeError::ManyRoots(count)) => (forall|k: Seq<char>|
                    !orphan(self.nodes_view(), k))
                    && count == root_ids(self.nodes_view()).len() && count > 1,
            },
    {
        let n = self.nodes.len();
        let mut roots: Vec<usize> = Vec::new();
        let ghost mut seen: Set<Seq<char>> = Set::empty();
        let mut i: usize = 0;
        while i < n
            invariant
                self.wf(),
                n == self.nodes.len(),
                i <= n,
                seen.finite(),
                roots.len() == seen.len(),
                forall|k: Seq<char>|
                    seen.contains(k) <==> exists|j: int|
                        0 <= j < i && #[trigger] self.id_seq()[j] == k && self.nodes[j].parent is None,
                forall|e: int|
                    0 <= e < roots.len() ==> #[trigger] roots@[e] < i && self.nodes[roots@[e] as int].parent is None,
                forall|j: int|
                    0 <= j < i ==> !orphan(self.index@, #[trigger] self.id_seq()[j]),
            decreases n - i,
        {
            proof {
                assert(self.index@.contains_key(self.id_seq()[i as int]));
            }
            match &self.nodes[i].parent {
                Some(pid) => {
                    if self.find(pid).is_none() {
                        return Err(
                            TreeError::MissingParent { parent: pid.clone(), child: self.nodes[i].id.clone() },
                        );
                    }
                },
                None => {
                    let ghost k = self.id_seq()[i as int];
                    proof {
                        if seen.contains(k) {
                            let j = choose|j: int|
                                0 <= j < i && #[trigger] self.id_seq()[j] == k && self.nodes[j].parent is None;
                            assert(self.id_seq()[j] == self.id_seq()[i as int]);
                        }
                        seen = seen.insert(k);
                        assert forall|x: Seq<char>|
                            (exists|j: int|
                                0 <= j < i + 1 && #[trigger] self.id_seq()[j] == x && self.nodes[j].parent is None)
                            implies seen.contains(x) by {
                            if x != k {
                                let j = choose|j: int|
                                    0 <= j < i + 1 && #[trigger] self.id_seq()[j] == x && self.nodes[j].parent is None;
                                assert(j != i);
                            }
                        }
                        assert forall|x: Seq<char>| seen.contains(x) implies (exists|j: int|
                                0 <= j < i + 1 && #[trigger] self.id_seq()[j] == x && self.nodes[j].parent is None) by {
                            if x == k {
                                assert(self.id_seq()[i as int] == x);
                            }
                        }
                    }
                    roots.push(i);
                },
            }
            i = i + 1;
        }
        proof {
            assert forall|k: Seq<char>| !orphan(self.index@, k) by {
                if self.index@.contains_key(k) {
                    let j = choose|j: int| 0 <= j < self.id_seq().len() && self.id_seq()[j] == k;
                    assert(!orphan(self.index@, self.id_seq()[j]));
                }
            }
            assert(seen =~= root_ids(self.index@)) by {
                assert forall|k: Seq<char>| root_ids(self.index@).contains(k) implies seen.contains(k) by {
                    let j = choose|j: int| 0 <= j < self.id_seq().len() && self.id_seq()[j] == k;
                    assert(self.index@.contains_key(self.id_seq()[j]));
                }
                assert forall|k: Seq<char>| seen.contains(k) implies root_ids(self.index@).contains(k) by {
                    let j = choose|j: int|
                        0 <= j < n && #[trigger] self.id_seq()[j] == k && self.nodes[j].parent is None;
                    assert(self.index@.contains_key(self.id_seq()[j]));
                }
            }
        }
        if roots.len() == 1 {
            let at = roots[0];
            proof {
                assert(roots@[0] < n);
                assert(self.index@.contains_key(self.id_seq()[at as int]));
                assert(seen.contains(self.id_seq()[at as int]));
            }
            Ok(self.nodes[at].duplicate())
        } else if roots.len() == 0 {
            Err(TreeError::NoRoot)
        } else {
            Err(TreeError::ManyRoots(roots.len()))
        }
    }

    /// Sets the root to the tree's only parentless node, where the tree is
    /// well rooted; otherwise leaves the tree as it is.
    pub fn adopt_root(&mut self)
        requires
            old(self).wf(),
        ensures
            final(self).wf(),
            final(self).nodes_view() == old(self).nodes_view(),
            (forall|k: Seq<char>| !orphan(old(self).nodes_view(), k)) && root_ids(
                old(self).nodes_view(),
            ).len() == 1 ==> root_ids(old(self).nodes_view()).contains(final(self).root_view().id)
                && final(self).root_view() == old(self).nodes_view()[final(self).root_view().id],
            !((forall|k: Seq<char>| !orphan(old(self).nodes_view(), k)) && root_ids(
                old(self).nodes_view(),
            ).len() == 1) ==> final(self).root_view() == old(self).root_view(),
    {
        match self.check_root() {
            Ok(root) => {
                self.root = root;
            },
            Err(_) => {},
        }
    }

    /// The nodes in storage order.
    pub fn nodes(&self) -> (r: &Vec<FileNode>)
        requires
            self.wf(),
        ensures
            r@.len() == self.nodes_view().dom().len(),
            forall|i: int|
                0 <= i < r@.len() ==> self.nodes_view().contains_key(#[trigger] r@[i].id@)
                    && self.nodes_view()[r@[i].id@] == r@[i]@,
            forall|k: Seq<char>|
                #[trigger] self.nodes_view().contains_key(k) ==> exists|i: int|
                    0 <= i < r@.len() && r@[i].id@ == k,
    {
        proof {
            self.id_seq().unique_seq_to_set();
            assert(self.id_seq().to_set() =~= self.index@.dom());
            assert forall|i: int| 0 <= i < self.nodes@.len() implies self.index@.contains_key(
                #[trigger] self.nodes@[i].id@,
            ) && self.index@[self.nodes@[i].id@] == self.nodes@[i]@ by {
                assert(self.id_seq()[i] == self.nodes@[i].id@);
            }
            assert forall|k: Seq<char>| #[trigger] self.index@.contains_key(k) implies exists|i: int|
                0 <= i < self.nodes@.len() && self.nodes@[i].id@ == k by {
                let i = choose|i: int| 0 <= i < self.id_seq().len() && self.id_seq()[i] == k;
                assert(self.nodes@[i].id@ == k);
            }
        }
        &self.nodes
    }

    /// Builds a tree from the items of a listing, each an id with the id of
    /// the item it sits below, and checks that it is well rooted.
    pub fn assemble(items: &Vec<(String, Option<String>)>) -> (r: Result<FileTree, TreeError>)
        ensures
            match r {
                Ok(tree) => tree.wf() && tree.nodes_view() == assembled(
                    items@.map_values(|it: (String, Option<String>)| (it.0@, opt_view(it.1))),
                ) && (forall|k: Seq<char>| !orphan(tree.nodes_view(), k))
                    && root_ids(tree.nodes_view()).len() == 1,
                Err(e) => {
                    let m = assembled(
                        items@.map_values(|it: (String, Option<String>)| (it.0@, opt_view(it.1))),
                    );
                    match e {
                        TreeError::MissingParent { parent, child } => orphan(m, child@)
                            && m[child@].parent == Some(parent@),
                        TreeError::NoRoot => (forall|k: Seq<char>| !orphan(m, k))
                            && root_ids(m).len() == 0,
                        TreeError::ManyRoots(count) => (forall|k: Seq<char>| !orphan(m, k))
                            && count == root_ids(m).len() && count > 1,
                    }
                },
            },
    {
        let ghost spec_items = items@.map_values(
            |it: (String, Option<String>)| (it.0@, opt_view(it.1)),
        );
        let mut tree = FileTree::new(String::new());
        let mut i: usize = 0;
        while i < items.len()
            invariant
                i <= items.len(),
                tree.wf(),
                spec_items == items@.map_values(|it: (String, Option<String>)| (it.0@, opt_view(it.1))),
                tree.nodes_view() == assembled(spec_items.subrange(0, i as int)),
            decreases items.len() - i,
        {
            let id = items[i].0.clone();
            let parent = copy_opt(&items[i].1);
            tree.insert_item(id, parent);
            proof {
                assert(spec_items.subrange(0, i + 1).drop_last() =~= spec_items.subrange(0, i as int));
            }
            i = i + 1;
        }
        proof {
            assert(spec_items.subrange(0, items.len() as int) =~= spec_items);
        }
        match tree.check_root() {
            Ok(_) => Ok(tree),
            Err(e) => Err(e),
        }
    }
}

} // verus!

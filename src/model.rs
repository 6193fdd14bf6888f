use vstd::prelude::*;

verus! {

/// Abstract model of a directory: its name, the sizes of its files, its
/// subdirectories in order, and the active-child marker.
pub struct Node {
    pub name: Seq<char>,
    pub files: Seq<u64>,
    pub children: Seq<Node>,
    pub active: Option<Seq<char>>,
}

/// Sum of a sequence of naturals.
pub open spec fn total(s: Seq<nat>) -> nat
    decreases s.len(),
{
    if s.len() == 0 {
        0
    } else {
        total(s.drop_last()) + s.last()
    }
}

/// A natural number clamped to the range of `u64`.
pub open spec fn saturate(n: nat) -> u64 {
    if n > u64::MAX {
        u64::MAX
    } else {
        n as u64
    }
}

impl Node {
    /// A fresh directory with no files, no subdirectories and no marker.
    pub open spec fn leaf(name: Seq<char>) -> Node {
        Node { name, files: Seq::empty(), children: Seq::empty(), active: None }
    }

    pub open spec fn has_child(self, n: Seq<char>) -> bool {
        exists|i: int| 0 <= i < self.children.len() && #[trigger] self.children[i].name == n
    }

    pub open spec fn child_index(self, n: Seq<char>) -> int {
        choose|i: int| 0 <= i < self.children.len() && #[trigger] self.children[i].name == n
    }

    pub open spec fn names_unique(self) -> bool {
        forall|i: int, j: int|
            0 <= i < self.children.len() && 0 <= j < self.children.len() && i != j
                ==> #[trigger] self.children[i].name != #[trigger] self.children[j].name
    }

    /// The marker names an existing child: the cursor lies below this node.
    pub open spec fn descends(self) -> bool {
        self.active is Some && self.has_child(self.active->0)
    }

    pub open spec fn active_index(self) -> int {
        self.child_index(self.active->0)
    }

    /// Well-formed: sibling names are unique, the marker names a child, and
    /// the markers below form one path that starts at the marked child.
    pub open spec fn wf(self) -> bool
        decreases self,
    {
        &&& self.names_unique()
        &&& self.active is Some ==> self.has_child(self.active->0)
        &&& forall|i: int| 0 <= i < self.children.len() ==> (#[trigger] self.children[i]).wf()
        &&& forall|i: int|
            0 <= i < self.children.len() && self.active != Some(
                #[trigger] self.children[i].name,
            ) ==> self.children[i].active is None
    }

    /// The names along the marker chain, from this node down to the cursor.
    pub open spec fn cursor(self) -> Seq<Seq<char>>
        decreases self,
    {
        if self.descends() {
            seq![self.active->0] + self.children[self.active_index()].cursor()
        } else {
            Seq::empty()
        }
    }

    /// The directory the cursor is on.
    pub open spec fn current(self) -> Node
        decreases self,
    {
        if self.descends() {
            self.children[self.active_index()].current()
        } else {
            self
        }
    }

    /// The tree after a file of size `s` is added to the current directory.
    pub open spec fn with_file(self, s: u64) -> Node
        decreases self,
    {
        if self.descends() {
            let k = self.active_index();
            Node { children: self.children.update(k, self.children[k].with_file(s)), ..self }
        } else {
            Node { files: self.files.push(s), ..self }
        }
    }

    /// The tree after `c` is attached below the current directory.
    pub open spec fn with_dir(self, c: Node) -> Node
        decreases self,
    {
        if self.descends() {
            let k = self.active_index();
            Node { children: self.children.update(k, self.children[k].with_dir(c)), ..self }
        } else {
            Node { children: self.children.push(c), ..self }
        }
    }

    /// The tree after the cursor moves down into the child named `n`.
    pub open spec fn pushed(self, n: Seq<char>) -> Node
        decreases self,
    {
        if self.descends() {
            let k = self.active_index();
            Node { children: self.children.update(k, self.children[k].pushed(n)), ..self }
        } else {
            Node { active: Some(n), ..self }
        }
    }

    /// The tree after the cursor moves up one level.
    pub open spec fn popped(self) -> Node
        decreases self,
    {
        if self.descends() {
            let k = self.active_index();
            if self.children[k].descends() {
                Node { children: self.children.update(k, self.children[k].popped()), ..self }
            } else {
                Node { active: None, ..self }
            }
        } else {
            self
        }
    }

    pub open spec fn file_total(self) -> nat {
        total(self.files.map_values(|f: u64| f as nat))
    }

    /// The size of each subdirectory, in order.
    pub open spec fn child_sizes(self) -> Seq<nat>
        decreases self, 0int,
    {
        Seq::new(
            self.children.len(),
            |i: int|
                if 0 <= i < self.children.len() {
                    self.children[i].size()
                } else {
                    0
                },
        )
    }

    /// Total size of the files held here and in every directory below.
    pub open spec fn size(self) -> nat
        decreases self, 1int,
    {
        self.file_total() + total(self.child_sizes())
    }
}

/// In a node whose sibling names are unique, a child's name finds that child.
pub proof fn lemma_index_of_name(n: Node, i: int)
    requires
        n.names_unique(),
        0 <= i < n.children.len(),
    ensures
        n.has_child(n.children[i].name),
        n.child_index(n.children[i].name) == i,
{
    let name = n.children[i].name;
    assert(n.children[i].name == name);
    let j = n.child_index(name);
    assert(n.children[j].name == name);
}

/// Replacing the marked child of a well-formed node by a well-formed node of
/// the same name keeps the node well-formed and the marker on that child.
pub proof fn lemma_replace_active(n: Node, c: Node)
    requires
        n.wf(),
        n.descends(),
        c.wf(),
        c.name == n.children[n.active_index()].name,
    ensures
        ({
            let m = Node { children: n.children.update(n.active_index(), c), ..n };
            &&& m.wf()
            &&& m.descends()
            &&& m.active_index() == n.active_index()
            &&& m.children[m.active_index()] == c
        }),
{
    let k = n.active_index();
    let m = Node { children: n.children.update(k, c), ..n };
    assert(n.children[k].name == n.active->0);
    assert(m.children[k].name == n.active->0);
    assert(m.names_unique());
    lemma_index_of_name(m, k);
    assert forall|i: int| 0 <= i < m.children.len() implies (#[trigger] m.children[i]).wf() by {
        if i != k {
            assert(m.children[i] == n.children[i]);
        }
    }
    assert forall|i: int|
        0 <= i < m.children.len() && m.active != Some(
            #[trigger] m.children[i].name,
        ) implies m.children[i].active is None by {
        if i != k {
            assert(m.children[i] == n.children[i]);
        }
    }
}

/// Adding a file keeps the tree well-formed and the cursor where it was.
pub proof fn lemma_with_file(n: Node, s: u64)
    requires
        n.wf(),
    ensures
        n.with_file(s).wf(),
        n.with_file(s).name == n.name,
        n.with_file(s).active == n.active,
        n.with_file(s).cursor() == n.cursor(),
    decreases n,
{
    if n.descends() {
        let k = n.active_index();
        lemma_with_file(n.children[k], s);
        lemma_replace_active(n, n.children[k].with_file(s));
    }
}

/// Attaching a fresh directory whose name is new at the cursor keeps the tree
/// well-formed and the cursor where it was.
pub proof fn lemma_with_dir(n: Node, c: Node)
    requires
        n.wf(),
        c.wf(),
        c.active is None,
        !n.current().has_child(c.name),
    ensures
        n.with_dir(c).wf(),
        n.with_dir(c).name == n.name,
        n.with_dir(c).active == n.active,
        n.with_dir(c).cursor() == n.cursor(),
    decreases n,
{
    if n.descends() {
        let k = n.active_index();
        lemma_with_dir(n.children[k], c);
        lemma_replace_active(n, n.children[k].with_dir(c));
    } else {
        let m = n.with_dir(c);
        let len = n.children.len();
        assert forall|i: int, j: int|
            0 <= i < m.children.len() && 0 <= j < m.children.len() && i != j
                implies #[trigger] m.children[i].name != #[trigger] m.children[j].name by {
            if i == len {
                assert(n.children[j].name != c.name);
            } else if j == len {
                assert(n.children[i].name != c.name);
            }
        }
        assert forall|i: int| 0 <= i < m.children.len() implies (#[trigger] m.children[i]).wf() by {
            if i < len {
                assert(m.children[i] == n.children[i]);
            }
        }
        assert(!m.descends());
    }
}

/// Moving down into an existing child of the current directory keeps the tree
/// well-formed and extends the cursor by that name.
pub proof fn lemma_pushed(n: Node, name: Seq<char>)
    requires
        n.wf(),
        n.current().has_child(name),
    ensures
        n.pushed(name).wf(),
        n.pushed(name).name == n.name,
        n.pushed(name).descends(),
        n.pushed(name).cursor() == n.cursor().push(name),
    decreases n,
{
    if n.descends() {
        let k = n.active_index();
        lemma_pushed(n.children[k], name);
        lemma_replace_active(n, n.children[k].pushed(name));
        assert(n.pushed(name).cursor() =~= n.cursor().push(name));
    } else {
        let m = n.pushed(name);
        assert(m.descends());
        let k = m.active_index();
        assert(m.children[k].name == name);
        assert(m.children[k].active is None);
        assert(!m.children[k].descends());
        assert(m.children[k].cursor() =~= Seq::<Seq<char>>::empty());
        assert(n.cursor() =~= Seq::<Seq<char>>::empty());
        assert(m.cursor() =~= n.cursor().push(name));
    }
}

/// Moving up from below the root keeps the tree well-formed and drops the
/// last name of the cursor.
pub proof fn lemma_popped(n: Node)
    requires
        n.wf(),
        n.descends(),
    ensures
        n.popped().wf(),
        n.popped().name == n.name,
        n.popped().cursor() == n.cursor().drop_last(),
    decreases n,
{
    let k = n.active_index();
    let c = n.children[k];
    if c.descends() {
        lemma_popped(c);
        lemma_replace_active(n, c.popped());
        assert(n.popped().cursor() =~= n.cursor().drop_last());
    } else {
        let m = n.popped();
        assert(n.children[k].wf());
        assert(c.active is None);
        assert(c.cursor() =~= Seq::<Seq<char>>::empty());
        assert forall|i: int|
            0 <= i < m.children.len() && m.active != Some(
                #[trigger] m.children[i].name,
            ) implies m.children[i].active is None by {
            if i != k {
                assert(n.children[i].name != n.active->0);
            }
        }
        assert(!m.descends());
        assert(m.cursor() =~= n.cursor().drop_last());
    }
}

/// The size of a directory is the sum of its own files' sizes and of the
/// sizes of its subdirectories, each counted once.
pub proof fn lemma_size_additive(n: Node)
    ensures
        n.size() == n.file_total() + total(n.child_sizes()),
        n.child_sizes().len() == n.children.len(),
        forall|i: int| 0 <= i < n.children.len() ==> #[trigger] n.child_sizes()[i] == n.children[i].size(),
{
}

/// A sum is at least each of its terms.
pub proof fn lemma_total_ge(s: Seq<nat>, i: int)
    requires
        0 <= i < s.len(),
    ensures
        total(s) >= s[i],
    decreases s.len(),
{
    if i < s.len() - 1 {
        lemma_total_ge(s.drop_last(), i);
    }
}

/// No subdirectory is larger than the directory that holds it.
pub proof fn lemma_size_monotone(n: Node, i: int)
    requires
        0 <= i < n.children.len(),
    ensures
        n.size() >= n.children[i].size(),
{
    lemma_size_additive(n);
    lemma_total_ge(n.child_sizes(), i);
}

} // verus!

//! The node model: files, folders and the root, and the one operation that
//! grows a tree, attaching a child.

use vstd::prelude::*;

pub mod objs;

verus! {

/// What a node is. A file carries its content.
pub enum WiiFSObjectType {
    File(Vec<u8>),
    Folder,
    FolderRoot,
}

/// A node of the tree: its name, what it is, and its children in table order.
pub struct WiiFSObject {
    pub children: Vec<WiiFSObject>,
    pub name: String,
    pub obj_type: WiiFSObjectType,
}

/// The mathematical counterpart of [`WiiFSObjectType`].
pub enum NodeKind {
    File(Seq<u8>),
    Folder,
    FolderRoot,
}

/// The mathematical counterpart of [`WiiFSObject`]: a finite tree.
pub struct Node {
    pub name: Seq<char>,
    pub kind: NodeKind,
    pub children: Seq<Node>,
}

impl Node {
    /// A file named `name` holding `content`.
    pub open spec fn file(name: Seq<char>, content: Seq<u8>) -> Node {
        Node { name, kind: NodeKind::File(content), children: Seq::empty() }
    }

    /// A folder named `name` with the given children.
    pub open spec fn folder(name: Seq<char>, children: Seq<Node>) -> Node {
        Node { name, kind: NodeKind::Folder, children }
    }

    /// The root folder with the given children.
    pub open spec fn root(children: Seq<Node>) -> Node {
        Node { name: root_name(), kind: NodeKind::FolderRoot, children }
    }

    pub open spec fn is_root(self) -> bool {
        self.kind is FolderRoot
    }

    pub open spec fn can_have_children(self) -> bool {
        !(self.kind is File)
    }

    /// The result of trying to attach `child`: a file takes no children and a
    /// root is never a child; in both cases nothing changes.
    pub open spec fn attach(self, child: Node) -> Node {
        if !self.can_have_children() || child.is_root() {
            self
        } else {
            Node { children: self.children.push(child), ..self }
        }
    }

    /// The result of attaching each of `kids` in order.
    pub open spec fn attach_all(self, kids: Seq<Node>) -> Node
        decreases kids.len(),
    {
        if kids.len() == 0 {
            self
        } else {
            self.attach_all(kids.drop_last()).attach(kids.last())
        }
    }

    /// No node below this one is a root, and no file below or at this one has
    /// children.
    pub open spec fn well_formed(self) -> bool
        decreases self,
    {
        &&& self.kind is File ==> self.children.len() == 0
        &&& forall|i: int|
            0 <= i < self.children.len() ==> !(#[trigger] self.children[i]).is_root()
                && self.children[i].well_formed()
    }
}

/// The name that every root carries.
pub open spec fn root_name() -> Seq<char> {
    seq!['<', 'r', 'o', 'o', 't', '>']
}

/// Each of `kids` is a well-formed node other than a root.
pub open spec fn all_attachable(kids: Seq<Node>) -> bool {
    forall|i: int| 0 <= i < kids.len() ==> !(#[trigger] kids[i]).is_root() && kids[i].well_formed()
}

impl View for WiiFSObjectType {
    type V = NodeKind;

    open spec fn view(&self) -> NodeKind {
        match *self {
            WiiFSObjectType::File(content) => NodeKind::File(content@),
            WiiFSObjectType::Folder => NodeKind::Folder,
            WiiFSObjectType::FolderRoot => NodeKind::FolderRoot,
        }
    }
}

/// The tree that a node and everything below it stand for.
pub open spec fn tree_of(node: WiiFSObject) -> Node
    decreases node,
{
    Node {
        name: node.name@,
        kind: node.obj_type@,
        children: Seq::new(
            node.children.len() as nat,
            |i: int|
                if 0 <= i < node.children.len() {
                    tree_of(node.children[i])
                } else {
                    arbitrary()
                },
        ),
    }
}

impl View for WiiFSObject {
    type V = Node;

    open spec fn view(&self) -> Node {
        tree_of(*self)
    }
}

impl WiiFSObject {
    pub fn name(&self) -> (r: &str)
        ensures
            r@ == self@.name,
    {
        self.name.as_str()
    }

    pub fn obj_type(&self) -> (r: &WiiFSObjectType)
        ensures
            r@ == self@.kind,
    {
        &self.obj_type
    }

    pub fn children(&self) -> (r: &Vec<WiiFSObject>)
        ensures
            r@.len() == self@.children.len(),
            forall|i: int| 0 <= i < r@.len() ==> (#[trigger] r@[i])@ == self@.children[i],
    {
        &self.children
    }

    pub fn is_root(&self) -> (r: bool)
        ensures
            r == self@.is_root(),
    {
        match self.obj_type {
            WiiFSObjectType::FolderRoot => true,
            _ => false,
        }
    }

    pub fn can_have_children(&self) -> (r: bool)
        ensures
            r == self@.can_have_children(),
    {
        match self.obj_type {
            WiiFSObjectType::File(_) => false,
            _ => true,
        }
    }

    /// Attaches `new_child` as the last child, unless this node is a file or
    /// `new_child` is a root: then nothing changes.
    pub fn push_child(&mut self, new_child: WiiFSObject)
        ensures
            final(self)@ == old(self)@.attach(new_child@),
    {
        if !self.can_have_children() || new_child.is_root() {
            return ;
        }
        self.children.push(new_child);
        proof {
            assert(self@.children =~= old(self)@.children.push(new_child@));
        }
    }
}

/// Attaching a root changes nothing, whatever the parent.
pub proof fn lemma_attach_root_rejected(parent: Node, child: Node)
    requires
        child.is_root(),
    ensures
        parent.attach(child) == parent,
{
}

/// Attaching anything to a file changes nothing.
pub proof fn lemma_attach_to_file_rejected(parent: Node, child: Node)
    requires
        parent.kind is File,
    ensures
        parent.attach(child) == parent,
{
}

/// Attaching keeps a tree well formed: whether the child is taken or
/// rejected, no root ends up below the parent.
pub proof fn lemma_attach_well_formed(parent: Node, child: Node)
    requires
        parent.well_formed(),
        child.well_formed(),
    ensures
        parent.attach(child).well_formed(),
        parent.attach(child).kind == parent.kind,
        parent.attach(child).name == parent.name,
{
    let after = parent.attach(child);
    if parent.can_have_children() && !child.is_root() {
        assert forall|i: int| 0 <= i < after.children.len() implies !(#[trigger] after.children[i]).is_root()
            && after.children[i].well_formed() by {
            if i < parent.children.len() {
                assert(after.children[i] == parent.children[i]);
            }
        }
    }
}

/// Attaching well-formed nodes other than roots to a folder or a root appends
/// them all, in order, and keeps the tree well formed.
pub proof fn lemma_attach_all_appends(parent: Node, kids: Seq<Node>)
    requires
        parent.can_have_children(),
        all_attachable(kids),
    ensures
        parent.attach_all(kids) == (Node { children: parent.children + kids, ..parent }),
        parent.well_formed() ==> parent.attach_all(kids).well_formed(),
    decreases kids.len(),
{
    if kids.len() == 0 {
        assert(parent.children + kids =~= parent.children);
    } else {
        let front = kids.drop_last();
        lemma_attach_all_appends(parent, front);
        let mid = parent.attach_all(front);
        assert((parent.children + front).push(kids.last()) =~= parent.children + kids);
        if parent.well_formed() {
            lemma_attach_well_formed(mid, kids.last());
        }
    }
}

/// The number of nodes in the trees `nodes[from..]`, at all depths.
pub open spec fn count_from(nodes: Seq<Node>, from: int) -> nat
    decreases nodes, nodes.len() - from,
{
    if 0 <= from < nodes.len() {
        1 + count_from(nodes[from].children, 0) + count_from(nodes, from + 1)
    } else {
        0
    }
}

/// The number of nodes in the trees `nodes`, at all depths.
pub open spec fn count_nodes(nodes: Seq<Node>) -> nat {
    count_from(nodes, 0)
}

/// Counting skips a node put in front.
pub proof fn lemma_count_shift(node: Node, rest: Seq<Node>, from: int)
    requires
        0 <= from,
    ensures
        count_from(seq![node] + rest, from + 1) == count_from(rest, from),
    decreases rest.len() - from,
{
    let all = seq![node] + rest;
    if from < rest.len() {
        assert(all[from + 1] == rest[from]);
        lemma_count_shift(node, rest, from + 1);
    }
}

/// A node in front counts for itself and for all below it.
pub proof fn lemma_count_prepend(node: Node, rest: Seq<Node>)
    ensures
        count_nodes(seq![node] + rest) == 1 + count_nodes(node.children) + count_nodes(rest),
{
    let all = seq![node] + rest;
    assert(all[0] == node);
    lemma_count_shift(node, rest, 0);
}

} // verus!

//! Constructors for the three kinds of node.

use vstd::prelude::*;
use vstd::string::StringExecFns;
use crate::wiifs::{Node, NodeKind, WiiFSObject, WiiFSObjectType, root_name};

verus! {

pub fn new_file(name: String, data: Vec<u8>) -> (r: WiiFSObject)
    ensures
        r@ == Node::file(name@, data@),
        r@.well_formed(),
{
    let r = WiiFSObject { children: Vec::new(), name, obj_type: WiiFSObjectType::File(data) };
    proof {
        assert(r@.children =~= Seq::empty());
    }
    r
}

pub fn new_empty_file(name: String) -> (r: WiiFSObject)
    ensures
        r@ == Node::file(name@, Seq::empty()),
        r@.well_formed(),
{
    new_file(name, Vec::new())
}

/// A folder, or the root where `is_root` holds, with the given name and
/// children.
pub fn new_dir(name: String, is_root: bool, children: Vec<WiiFSObject>) -> (r: WiiFSObject)
    ensures
        r@.name == name@,
        r@.kind == (if is_root {
            NodeKind::FolderRoot
        } else {
            NodeKind::Folder
        }),
        r@.children.len() == children@.len(),
        forall|i: int| 0 <= i < children@.len() ==> r@.children[i] == (#[trigger] children@[i])@,
{
    let obj_type = if is_root {
        WiiFSObjectType::FolderRoot
    } else {
        WiiFSObjectType::Folder
    };
    WiiFSObject { children, name, obj_type }
}

pub fn new_empty_dir(name: String) -> (r: WiiFSObject)
    ensures
        r@ == Node::folder(name@, Seq::empty()),
        r@.well_formed(),
{
    let r = new_dir(name, false, Vec::new());
    proof {
        assert(r@.children =~= Seq::empty());
    }
    r
}

pub fn new_root(children: Vec<WiiFSObject>) -> (r: WiiFSObject)
    ensures
        r@.name == root_name(),
        r@.kind == NodeKind::FolderRoot,
        r@.children.len() == children@.len(),
        forall|i: int| 0 <= i < children@.len() ==> r@.children[i] == (#[trigger] children@[i])@,
{
    proof {
        reveal_strlit("<root>");
        assert("<root>"@ =~= root_name());
    }
    new_dir(String::from_str("<root>"), true, children)
}

pub fn new_empty_root() -> (r: WiiFSObject)
    ensures
        r@ == Node::root(Seq::empty()),
        r@.well_formed(),
{
    let r = new_root(Vec::new());
    proof {
        assert(r@.children =~= Seq::empty());
    }
    r
}

} // verus!

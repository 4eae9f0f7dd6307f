//! Reader- and writer-facing filesystem entries: a common metadata
//! header plus a tagged variant for the entry's kind.
use vstd::prelude::*;

verus! {

/// The metadata every entry carries.
#[derive(Clone, Copy, Debug, PartialEq, Eq, Structural)]
pub struct NodeHeader {
    pub permissions: u16,
    pub uid: u32,
    pub gid: u32,
    pub mtime: u32,
}

impl NodeHeader {
    /// The default metadata new entries get.
    pub fn new_default() -> (r: NodeHeader)
        ensures
            r == (NodeHeader { permissions: 0o644 as u16, uid: 0u32, gid: 0u32, mtime: 0u32 }),
    {
        NodeHeader { permissions: 0o644, uid: 0, gid: 0, mtime: 0 }
    }
}

/// The kind of one entry, carrying only the fields valid for it.
#[derive(Clone, Debug)]
pub enum NodeKind {
    File { content: Vec<u8> },
    Symlink { target: Vec<u8> },
    Dir,
    CharDevice { device: u32 },
    BlockDevice { device: u32 },
}

/// The mathematical value of a kind.
pub enum NodeKindV {
    File { content: Seq<u8> },
    Symlink { target: Seq<u8> },
    Dir,
    CharDevice { device: u32 },
    BlockDevice { device: u32 },
}

impl View for NodeKind {
    type V = NodeKindV;

    open spec fn view(&self) -> NodeKindV {
        match self {
            NodeKind::File { content } => NodeKindV::File { content: content@ },
            NodeKind::Symlink { target } => NodeKindV::Symlink { target: target@ },
            NodeKind::Dir => NodeKindV::Dir,
            NodeKind::CharDevice { device } => NodeKindV::CharDevice { device: *device },
            NodeKind::BlockDevice { device } => NodeKindV::BlockDevice { device: *device },
        }
    }
}

/// One filesystem entry.
#[derive(Clone, Debug)]
pub struct Node {
    pub header: NodeHeader,
    pub kind: NodeKind,
}

/// The mathematical value of an entry.
pub struct NodeV {
    pub header: NodeHeader,
    pub kind: NodeKindV,
}

impl View for Node {
    type V = NodeV;

    open spec fn view(&self) -> NodeV {
        NodeV { header: self.header, kind: self.kind@ }
    }
}

impl Node {
    /// Whether this entry is a directory.
    pub fn is_dir(&self) -> (r: bool)
        ensures
            r == (self@.kind is Dir),
    {
        match self.kind {
            NodeKind::Dir => true,
            _ => false,
        }
    }
}

/// A deep copy of a node, equal in value.
pub fn node_clone(n: &Node) -> (r: Node)
    ensures
        r@ == n@,
{
    let kind = match &n.kind {
        NodeKind::File { content } => NodeKind::File {
            content: crate::bytes::copy_range(content, 0, content.len()),
        },
        NodeKind::Symlink { target } => NodeKind::Symlink {
            target: crate::bytes::copy_range(target, 0, target.len()),
        },
        NodeKind::Dir => NodeKind::Dir,
        NodeKind::CharDevice { device } => NodeKind::CharDevice { device: *device },
        NodeKind::BlockDevice { device } => NodeKind::BlockDevice { device: *device },
    };
    let r = Node { header: n.header, kind };
    proof {
        match n.kind {
            NodeKind::File { ref content } => {
                assert(content@.subrange(0, content@.len() as int) =~= content@);
            },
            NodeKind::Symlink { ref target } => {
                assert(target@.subrange(0, target@.len() as int) =~= target@);
            },
            _ => {},
        }
    }
    r
}

/// Whether two byte vectors hold the same bytes.
pub fn bytes_eq(a: &Vec<u8>, b: &Vec<u8>) -> (r: bool)
    ensures
        r == (a@ == b@),
{
    let n = a.len();
    if n != b.len() {
        return false;
    }
    let mut i: usize = 0;
    while i < n
        invariant
            i <= n,
            n == a@.len(),
            n == b@.len(),
            forall|j: int| 0 <= j < i ==> a@[j] == b@[j],
        decreases n - i,
    {
        if a[i] != b[i] {
            return false;
        }
        i = i + 1;
    }
    proof {
        assert(a@ =~= b@);
    }
    true
}

/// Whether two entries denote the same value: same metadata, same kind,
/// same content.
pub fn node_eq(a: &Node, b: &Node) -> (r: bool)
    ensures
        r == (a@ == b@),
{
    if !(a.header == b.header) {
        return false;
    }
    match (&a.kind, &b.kind) {
        (NodeKind::File { content: ca }, NodeKind::File { content: cb }) => bytes_eq(ca, cb),
        (NodeKind::Symlink { target: ta }, NodeKind::Symlink { target: tb }) => bytes_eq(ta, tb),
        (NodeKind::Dir, NodeKind::Dir) => true,
        (NodeKind::CharDevice { device: da }, NodeKind::CharDevice { device: db }) => da == db,
        (NodeKind::BlockDevice { device: da }, NodeKind::BlockDevice { device: db }) => da == db,
        _ => {
            proof {
                assert(a@.kind != b@.kind);
            }
            false
        },
    }
}

} // verus!

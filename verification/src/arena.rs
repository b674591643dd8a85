//! The inode arena and its node model.
//!
//! Inodes are indices into one append-only vector.  Index 0 is unused and
//! index 1 is the root; entries are appended and never removed, so child
//! references are plain integers.  A directory's listing is a name map: an
//! ordered vector of (display name, child inode) pairs whose insertion
//! order is the listing order, and where a lookup takes the first match.

use vstd::prelude::*;

verus! {

/// A directory's listing: display names paired with child inode numbers,
/// in insertion order.
pub type NameMap = Vec<(String, u64)>;

/// A file node's bytes: either already fetched, or still a remote address
/// paired with the session handle to resolve it through.
pub enum Content {
    Data(Vec<u8>),
    Url(String, u64),
}

impl Content {
    /// The readable bytes of this node; empty while it is still an address.
    pub open spec fn bytes_spec(&self) -> Seq<u8> {
        match self {
            Content::Data(x) => x@,
            Content::Url(_, _) => Seq::empty(),
        }
    }

    /// A node is only readable once resolved, so an address reads as empty.
    pub fn bytes(&self) -> (r: &[u8])
        ensures
            r@ == self.bytes_spec(),
    {
        match self {
            Content::Data(x) => x.as_slice(),
            Content::Url(_, _) => {
                let r: &[u8] = &[];
                proof {
                    assert(r@ =~= Seq::<u8>::empty());
                }
                r
            },
        }
    }
}

/// What a refresh action re-fetches: one homework's detail, or a
/// discussion's replies.
pub enum RefreshInfo {
    Homework { course: String, homework: String },
    Discussion,
}

/// One inode of the synthetic filesystem.  Every name-map value is the
/// inode number of a child; the session handle `client` names the login
/// session that produced the node.
#[allow(inconsistent_fields)]
pub enum InoInfo {
    /// The filesystem root: logged-in usernames.
    Root { users: NameMap },
    /// One user: human-readable semester labels.
    User { semesters: NameMap },
    /// One semester: course names.
    Semester { courses: NameMap },
    /// One course.  Its four category children (homework, notifications,
    /// files, discussions) sit at the four inodes right after it; `fetched`
    /// is the one-shot gate of lazy population.
    Course { id: String, client: u64, fetched: bool },
    /// One course category: item titles.
    ItemList(NameMap),
    /// One homework, notification or file: its detail fields and actions.
    Item(NameMap),
    /// One detail field or attachment.
    Content(Content),
    /// One discussion thread.  `replies` starts with only the refresh
    /// entry; a length of exactly one is the unpopulated sentinel.
    Discussion {
        course: String,
        discussion: String,
        board: String,
        client: u64,
        replies: NameMap,
    },
    /// One reply of a discussion.  The thread-opening post has no id and
    /// can be neither replied to nor deleted.
    DiscussionReply {
        course: String,
        discussion: String,
        id: Option<String>,
        client: u64,
        content: String,
    },
    /// Action node: writing submits homework.
    SubmitHomework { student_homework: String, client: u64 },
    /// Action node: writing re-fetches the parent's cached content.
    Refresh { parent: u64, client: u64, info: RefreshInfo },
}

/// The first entry of a name map whose name matches, if any.
pub open spec fn find_entry(m: Seq<(String, u64)>, name: Seq<char>) -> Option<u64>
    decreases m.len(),
{
    if m.len() == 0 {
        None
    } else if m[0].0@ == name {
        Some(m[0].1)
    } else {
        find_entry(m.drop_first(), name)
    }
}

/// The position of the first entry whose name matches, if any.
pub open spec fn find_index(m: Seq<(String, u64)>, name: Seq<char>) -> Option<int>
    decreases m.len(),
{
    if m.len() == 0 {
        None
    } else if m[0].0@ == name {
        Some(0int)
    } else {
        match find_index(m.drop_first(), name) {
            Some(i) => Some(i + 1),
            None => None,
        }
    }
}

pub proof fn lemma_find_entry_index(m: Seq<(String, u64)>, name: Seq<char>)
    ensures
        find_entry(m, name) is Some <==> find_index(m, name) is Some,
        find_index(m, name) matches Some(i) ==> 0 <= i < m.len() && m[i].0@ == name
            && find_entry(m, name) == Some(m[i].1) && (forall|j: int|
            0 <= j < i ==> (#[trigger] m[j]).0@ != name),
        find_index(m, name) is None ==> forall|j: int| 0 <= j < m.len() ==> (#[trigger] m[j]).0@
            != name,
    decreases m.len(),
{
    if m.len() != 0 && m[0].0@ != name {
        lemma_find_entry_index(m.drop_first(), name);
        assert(forall|j: int| 1 <= j < m.len() ==> (#[trigger] m[j]) == m.drop_first()[j - 1]);
    }
}

/// Every value of a matching map entry stays below the arena's length.
pub proof fn lemma_find_entry_bound(m: Seq<(String, u64)>, name: Seq<char>, n: int)
    requires
        map_ok(m, n),
    ensures
        find_entry(m, name) matches Some(v) ==> v < n,
    decreases m.len(),
{
    if m.len() != 0 && m[0].0@ != name {
        assert(forall|k: int| 0 <= k < m.drop_first().len() ==> (#[trigger] m.drop_first()[k])
            == m[k + 1]);
        lemma_find_entry_bound(m.drop_first(), name, n);
    }
}

/// A name map is in range when every child it names lies inside the arena.
pub open spec fn map_ok(m: Seq<(String, u64)>, n: int) -> bool {
    forall|k: int| 0 <= k < m.len() ==> (#[trigger] m[k]).1 < n
}

/// What well-formedness asks of the node at index `i`: child references in
/// range, and a course's four category lists right after it.
pub open spec fn node_ok(nodes: Seq<InoInfo>, i: int) -> bool {
    match nodes[i] {
        InoInfo::Root { users } => map_ok(users@, nodes.len() as int),
        InoInfo::User { semesters } => map_ok(semesters@, nodes.len() as int),
        InoInfo::Semester { courses } => map_ok(courses@, nodes.len() as int),
        InoInfo::Course { .. } => i + 4 < nodes.len() && nodes[i + 1] is ItemList && nodes[i + 2]
            is ItemList && nodes[i + 3] is ItemList && nodes[i + 4] is ItemList,
        InoInfo::ItemList(m) => map_ok(m@, nodes.len() as int),
        InoInfo::Item(m) => map_ok(m@, nodes.len() as int),
        InoInfo::Content(_) => true,
        InoInfo::Discussion { replies, .. } => map_ok(replies@, nodes.len() as int),
        InoInfo::DiscussionReply { .. } => true,
        InoInfo::SubmitHomework { .. } => true,
        InoInfo::Refresh { parent, .. } => parent < nodes.len(),
    }
}

/// The arena's invariant: every node is well formed.
pub open spec fn arena_ok(nodes: Seq<InoInfo>) -> bool {
    forall|i: int| 0 <= i < nodes.len() ==> #[trigger] node_ok(nodes, i)
}

/// Appending to the arena keeps every existing node well formed: ranges
/// only grow, and a course's category block is untouched.
pub proof fn lemma_arena_extend(old_nodes: Seq<InoInfo>, new_nodes: Seq<InoInfo>)
    requires
        arena_ok(old_nodes),
        old_nodes.len() <= new_nodes.len(),
        forall|i: int| 0 <= i < old_nodes.len() ==> old_nodes[i] == new_nodes[i],
    ensures
        forall|i: int| 0 <= i < old_nodes.len() ==> #[trigger] node_ok(new_nodes, i),
{
    assert forall|i: int| 0 <= i < old_nodes.len() implies #[trigger] node_ok(new_nodes, i) by {
        assert(node_ok(old_nodes, i));
        match old_nodes[i] {
            InoInfo::Root { users } => {
                assert(map_ok(users@, new_nodes.len() as int));
            },
            InoInfo::User { semesters } => {
                assert(map_ok(semesters@, new_nodes.len() as int));
            },
            InoInfo::Semester { courses } => {
                assert(map_ok(courses@, new_nodes.len() as int));
            },
            InoInfo::Course { .. } => {
                assert(new_nodes[i + 1] == old_nodes[i + 1]);
                assert(new_nodes[i + 2] == old_nodes[i + 2]);
                assert(new_nodes[i + 3] == old_nodes[i + 3]);
                assert(new_nodes[i + 4] == old_nodes[i + 4]);
            },
            InoInfo::ItemList(m) => {
                assert(map_ok(m@, new_nodes.len() as int));
            },
            InoInfo::Item(m) => {
                assert(map_ok(m@, new_nodes.len() as int));
            },
            InoInfo::Discussion { replies, .. } => {
                assert(map_ok(replies@, new_nodes.len() as int));
            },
            _ => {},
        }
    }
}

/// Replacing one node keeps the others well formed, provided the new node
/// is itself well formed and a replaced category list stays a category
/// list (a course's block must keep its shape).
pub proof fn lemma_arena_update(nodes: Seq<InoInfo>, j: int, x: InoInfo)
    requires
        arena_ok(nodes),
        0 <= j < nodes.len(),
        node_ok(nodes.update(j, x), j),
        nodes[j] is ItemList ==> x is ItemList,
    ensures
        arena_ok(nodes.update(j, x)),
{
    let upd = nodes.update(j, x);
    assert forall|i: int| 0 <= i < upd.len() implies #[trigger] node_ok(upd, i) by {
        if i != j {
            assert(node_ok(nodes, i));
            assert(upd[i] == nodes[i]);
            match nodes[i] {
                InoInfo::Course { .. } => {
                    assert(nodes[i + 1] is ItemList && upd[i + 1] is ItemList);
                    assert(nodes[i + 2] is ItemList && upd[i + 2] is ItemList);
                    assert(nodes[i + 3] is ItemList && upd[i + 3] is ItemList);
                    assert(nodes[i + 4] is ItemList && upd[i + 4] is ItemList);
                },
                _ => {},
            }
        }
    }
}

/// The position of the first match of a name map.
pub fn do_lookup_index(m: &NameMap, k: &str) -> (r: Option<usize>)
    ensures
        match r {
            Some(i) => find_index(m@, k@) == Some(i as int),
            None => find_index(m@, k@) is None,
        },
{
    let key: String = k.to_owned();
    let n = m.len();
    let mut i: usize = 0;
    proof {
        lemma_find_entry_index(m@, k@);
    }
    while i < n
        invariant
            0 <= i <= n,
            n == m@.len(),
            key@ == k@,
            forall|j: int| 0 <= j < i ==> (#[trigger] m@[j]).0@ != k@,
            find_index(m@, k@) matches Some(x) ==> 0 <= x < n && m@[x].0@ == k@ && (forall|j: int|
                0 <= j < x ==> (#[trigger] m@[j]).0@ != k@),
            find_index(m@, k@) is None ==> forall|j: int|
                0 <= j < n ==> (#[trigger] m@[j]).0@ != k@,
        decreases n - i,
    {
        if m[i].0 == key {
            proof {
                if find_index(m@, k@) is None {
                    assert(m@[i as int].0@ != k@);
                }
                let x = find_index(m@, k@).unwrap();
                if x < i {
                    assert(m@[x].0@ != k@);
                }
                if x > i {
                    assert(m@[i as int].0@ != k@);
                }
            }
            return Some(i);
        }
        i = i + 1;
    }
    proof {
        if find_index(m@, k@) is Some {
            let x = find_index(m@, k@).unwrap();
            assert(m@[x].0@ != k@);
        }
    }
    None
}

/// The first match of a name map, as `lookup` resolves names.
pub fn do_lookup(m: &NameMap, k: &str) -> (r: Option<u64>)
    ensures
        r == find_entry(m@, k@),
{
    let key: String = k.to_owned();
    let n = m.len();
    let mut i: usize = 0;
    proof {
        assert(m@.skip(0) =~= m@);
    }
    while i < n
        invariant
            0 <= i <= n,
            n == m@.len(),
            key@ == k@,
            find_entry(m@.skip(i as int), k@) == find_entry(m@, k@),
        decreases n - i,
    {
        proof {
            assert(m@.skip(i as int)[0] == m@[i as int]);
        }
        if m[i].0 == key {
            return Some(m[i].1);
        }
        proof {
            assert(m@.skip(i as int).drop_first() =~= m@.skip(i + 1));
        }
        i = i + 1;
    }
    proof {
        assert(m@.skip(n as int).len() == 0);
    }
    None
}

} // verus!

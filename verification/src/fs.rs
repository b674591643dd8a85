//! The request dispatcher: filesystem requests against the inode arena.
//!
//! The driver's request protocol is synchronous and non-reentrant: one
//! request at a time, answered before the next arrives.  Every remote call
//! that a request needs is performed by the caller between two library
//! calls: the caller asks what must be fetched (`needs_population`,
//! `unresolved_url`, `write_action`, `unlink_target`), performs the network
//! traffic, and hands the outcome back in as plain values.  Everything the
//! driver decides with those values is verified here.

use vstd::prelude::*;
use vstd::slice::slice_index_get;
use vstd::utf8::encode_utf8;

use crate::arena::{
    arena_ok, do_lookup, do_lookup_index, find_entry, find_index, lemma_arena_update,
    lemma_find_entry_bound, lemma_find_entry_index, map_ok, node_ok, Content, InoInfo, NameMap,
    RefreshInfo,
};

verus! {

/// What kind of file an attribute reply describes.
#[derive(Clone, Copy, PartialEq, Eq, Structural, Debug)]
pub enum FileKind {
    Directory,
    RegularFile,
}

/// One attribute reply.  All timestamps of the filesystem are a sentinel
/// epoch value and are left to the caller; the remaining fields are fixed
/// per kind, with uid and gid 1000, the usual first login account.
#[derive(Clone, Copy, PartialEq, Eq, Structural, Debug)]
pub struct FileAttr {
    pub ino: u64,
    pub size: u64,
    pub blocks: u64,
    pub kind: FileKind,
    pub perm: u16,
    pub nlink: u32,
    pub uid: u32,
    pub gid: u32,
    pub rdev: u32,
    pub flags: u32,
}

pub open spec fn spec_dir_attr(ino: u64) -> FileAttr {
    FileAttr {
        ino,
        size: 0,
        blocks: 0,
        kind: FileKind::Directory,
        perm: 0o777,
        nlink: 2,
        uid: 1000,
        gid: 1000,
        rdev: 0,
        flags: 0,
    }
}

/// The attribute reply for a directory-like node.
pub fn dir_attr(ino: u64) -> (r: FileAttr)
    ensures
        r == spec_dir_attr(ino),
{
    FileAttr {
        ino,
        size: 0,
        blocks: 0,
        kind: FileKind::Directory,
        perm: 0o777,
        nlink: 2,
        uid: 1000,
        gid: 1000,
        rdev: 0,
        flags: 0,
    }
}

pub open spec fn spec_file_attr(ino: u64, size: u64) -> FileAttr {
    FileAttr {
        ino,
        size,
        blocks: 1,
        kind: FileKind::RegularFile,
        perm: 0o666,
        nlink: 1,
        uid: 1000,
        gid: 1000,
        rdev: 0,
        flags: 0,
    }
}

/// The attribute reply for a file-like node of the given size.
pub fn file_attr(ino: u64, size: u64) -> (r: FileAttr)
    ensures
        r == spec_file_attr(ino, size),
{
    FileAttr {
        ino,
        size,
        blocks: 1,
        kind: FileKind::RegularFile,
        perm: 0o666,
        nlink: 1,
        uid: 1000,
        gid: 1000,
        rdev: 0,
        flags: 0,
    }
}

/// The error kinds a request can fail with.  `NotFound` is a missing name,
/// `NotPermitted` an operation a node variant does not support, and
/// `IoError` a failed remote interaction — or an arena shape that correct
/// construction never produces, which aborts the single request.
#[derive(Clone, Copy, PartialEq, Eq, Structural, Debug)]
pub enum FsError {
    NotFound,
    NotPermitted,
    IoError,
}

/// One directory entry of a readdir reply: the offset at which enumeration
/// resumes after this entry, and the child it names.
#[derive(Debug)]
pub struct DirEntry {
    pub ino: u64,
    pub offset: i64,
    pub name: String,
}

/// The byte length a reply's text reads as.
pub open spec fn reply_size(content: String) -> u64 {
    (encode_utf8(content@).len() as usize) as u64
}

/// The byte length a content node reads as.
pub open spec fn content_size(c: Content) -> u64 {
    c.bytes_spec().len() as u64
}

/// The synthetic filesystem: an append-only arena of inodes, with index 0
/// unused and index 1 the root.
pub struct LearnFS {
    pub inos: Vec<InoInfo>,
}

/// The attribute of an `Item`'s child, which is a content or action node;
/// any other shape is a construction defect and aborts the request.
pub open spec fn item_child_attr(nodes: Seq<InoInfo>, ino: u64) -> Result<FileAttr, FsError> {
    match nodes[ino as int] {
        InoInfo::Content(c) => Ok(spec_file_attr(ino, content_size(c))),
        InoInfo::SubmitHomework { .. } => Ok(spec_file_attr(ino, 0)),
        InoInfo::Refresh { .. } => Ok(spec_file_attr(ino, 0)),
        _ => Err(FsError::IoError),
    }
}

/// The attribute of a `Discussion`'s child, which is a reply or the
/// refresh action; any other shape is a construction defect.
pub open spec fn reply_child_attr(nodes: Seq<InoInfo>, ino: u64) -> Result<FileAttr, FsError> {
    match nodes[ino as int] {
        InoInfo::DiscussionReply { content, .. } => Ok(
            spec_file_attr(ino, reply_size(content)),
        ),
        InoInfo::Refresh { .. } => Ok(spec_file_attr(ino, 0)),
        _ => Err(FsError::IoError),
    }
}

/// A course's fixed children: its four category lists, in listing order,
/// at the four inodes right after the course.
pub open spec fn course_child_lookup(parent: u64, name: Seq<char>) -> Result<FileAttr, FsError> {
    if name == "作业"@ {
        Ok(spec_dir_attr((parent + 1) as u64))
    } else if name == "通知"@ {
        Ok(spec_dir_attr((parent + 2) as u64))
    } else if name == "文件"@ {
        Ok(spec_dir_attr((parent + 3) as u64))
    } else if name == "讨论"@ {
        Ok(spec_dir_attr((parent + 4) as u64))
    } else {
        Err(FsError::NotFound)
    }
}

pub open spec fn dir_map_lookup(m: Seq<(String, u64)>, name: Seq<char>) -> Result<
    FileAttr,
    FsError,
> {
    match find_entry(m, name) {
        Some(ino) => Ok(spec_dir_attr(ino)),
        None => Err(FsError::NotFound),
    }
}

/// What `lookup` answers: the name resolved against the parent's listing.
/// A parent that owns no children answers `NotPermitted`.
pub open spec fn spec_lookup(nodes: Seq<InoInfo>, parent: u64, name: Seq<char>) -> Result<
    FileAttr,
    FsError,
> {
    match nodes[parent as int] {
        InoInfo::Root { users } => dir_map_lookup(users@, name),
        InoInfo::User { semesters } => dir_map_lookup(semesters@, name),
        InoInfo::Semester { courses } => dir_map_lookup(courses@, name),
        InoInfo::ItemList(m) => dir_map_lookup(m@, name),
        InoInfo::Item(m) => match find_entry(m@, name) {
            Some(ino) => item_child_attr(nodes, ino),
            None => Err(FsError::NotFound),
        },
        InoInfo::Discussion { replies, .. } => match find_entry(replies@, name) {
            Some(ino) => reply_child_attr(nodes, ino),
            None => Err(FsError::NotFound),
        },
        InoInfo::Course { .. } => course_child_lookup(parent, name),
        _ => Err(FsError::NotPermitted),
    }
}

/// What `getattr` answers for each node variant.  Directory-like variants
/// report a zero-sized directory; content and replies report their byte
/// length; action nodes report an empty file.
pub open spec fn spec_getattr(nodes: Seq<InoInfo>, ino: u64) -> FileAttr {
    match nodes[ino as int] {
        InoInfo::Content(c) => spec_file_attr(ino, content_size(c)),
        InoInfo::DiscussionReply { content, .. } => spec_file_attr(ino, reply_size(content)),
        InoInfo::SubmitHomework { .. } => spec_file_attr(ino, 0),
        InoInfo::Refresh { .. } => spec_file_attr(ino, 0),
        _ => spec_dir_attr(ino),
    }
}

/// The name-to-inode listing a directory enumerates, or `None` for a node
/// that is not a directory.
pub open spec fn spec_listing(nodes: Seq<InoInfo>, ino: u64) -> Option<Seq<(Seq<char>, u64)>> {
    match nodes[ino as int] {
        InoInfo::Root { users } => Some(map_names(users@)),
        InoInfo::User { semesters } => Some(map_names(semesters@)),
        InoInfo::Semester { courses } => Some(map_names(courses@)),
        InoInfo::ItemList(m) => Some(map_names(m@)),
        InoInfo::Item(m) => Some(map_names(m@)),
        InoInfo::Discussion { replies, .. } => Some(map_names(replies@)),
        InoInfo::Course { .. } => Some(
            seq![
                ("作业"@, (ino + 1) as u64),
                ("通知"@, (ino + 2) as u64),
                ("文件"@, (ino + 3) as u64),
                ("讨论"@, (ino + 4) as u64),
            ],
        ),
        _ => None,
    }
}

pub open spec fn map_names(m: Seq<(String, u64)>) -> Seq<(Seq<char>, u64)> {
    Seq::new(m.len(), |i: int| (m[i].0@, m[i].1))
}

/// The full enumeration of a directory: `.` and `..` first, then the
/// listing in insertion order.
pub open spec fn spec_rows(nodes: Seq<InoInfo>, ino: u64) -> Seq<(Seq<char>, u64)>
    recommends
        spec_listing(nodes, ino) is Some,
{
    seq![("."@, ino), (".."@, ino)] + spec_listing(nodes, ino).unwrap()
}

/// What `read` reads from: content bytes, a reply's text, or nothing for
/// an action node; other variants refuse the operation.
pub open spec fn spec_read_data(nodes: Seq<InoInfo>, ino: u64) -> Result<Seq<u8>, FsError> {
    match nodes[ino as int] {
        InoInfo::Content(c) => Ok(c.bytes_spec()),
        InoInfo::DiscussionReply { content, .. } => Ok(encode_utf8(content@)),
        InoInfo::SubmitHomework { .. } => Ok(Seq::empty()),
        InoInfo::Refresh { .. } => Ok(Seq::empty()),
        _ => Err(FsError::NotPermitted),
    }
}

/// The remote fetch that must happen before a directory's content can be
/// listed: a course's four lists, or a discussion's replies.
#[derive(Debug)]
pub enum FetchRequest {
    CourseContent { id: String, client: u64 },
    DiscussionReplies { course: String, discussion: String, board: String, client: u64 },
}

/// Lazy population is due exactly when a course is unfetched or a
/// discussion still holds only its refresh sentinel entry.
pub open spec fn spec_needs_population(nodes: Seq<InoInfo>, ino: u64) -> Option<FetchRequest> {
    match nodes[ino as int] {
        InoInfo::Course { id, client, fetched } => if !fetched {
            Some(FetchRequest::CourseContent { id, client })
        } else {
            None
        },
        InoInfo::Discussion { course, discussion, board, client, replies } => if replies@.len()
            == 1 {
            Some(
                FetchRequest::DiscussionReplies { course, discussion, board, client },
            )
        } else {
            None
        },
        _ => None,
    }
}

/// The remote command a write to a node triggers.
#[derive(Debug)]
pub enum WriteCmd {
    /// Submit homework under the student-homework reference; dispatched in
    /// the background, acknowledged immediately.
    SubmitHomework { student_homework: String, client: u64 },
    /// Post a reply to the discussion; `reply_id` is the reply being
    /// answered, absent when answering the thread itself.
    ReplyDiscussion { course: String, discussion: String, reply_id: Option<String>, client: u64 },
    /// Re-fetch one homework's detail and rebuild the parent item.
    RefreshHomework { parent: u64, course: String, homework: String, client: u64 },
    /// Forget a discussion's replies so the next listing re-fetches them.
    RefreshDiscussion { parent: u64, client: u64 },
}

pub open spec fn spec_write_action(nodes: Seq<InoInfo>, ino: u64) -> Result<WriteCmd, FsError> {
    match nodes[ino as int] {
        InoInfo::SubmitHomework { student_homework, client } => Ok(
            WriteCmd::SubmitHomework { student_homework, client },
        ),
        InoInfo::DiscussionReply { course, discussion, id, client, .. } => Ok(
            WriteCmd::ReplyDiscussion { course, discussion, reply_id: id, client },
        ),
        InoInfo::Refresh { parent, client, info } => match info {
            RefreshInfo::Homework { course, homework } => Ok(
                WriteCmd::RefreshHomework { parent, course, homework, client },
            ),
            RefreshInfo::Discussion => Ok(WriteCmd::RefreshDiscussion { parent, client }),
        },
        _ => Err(FsError::NotPermitted),
    }
}

/// The remote deletion an `unlink` stands for.
#[derive(Debug)]
pub struct DeleteReply {
    pub course: String,
    pub reply: String,
    pub client: u64,
}

/// What `unlink` may delete: a named reply that has an id.  The
/// thread-opening post has none and refuses deletion, as does the refresh
/// action; a parent that is not a discussion supports no unlink at all.
pub open spec fn spec_unlink_target(nodes: Seq<InoInfo>, parent: u64, name: Seq<char>) -> Result<
    DeleteReply,
    FsError,
> {
    match nodes[parent as int] {
        InoInfo::Discussion { replies, .. } => match find_entry(replies@, name) {
            Some(ino) => match nodes[ino as int] {
                InoInfo::DiscussionReply { course, id, client, .. } => match id {
                    Some(reply) => Ok(DeleteReply { course, reply, client }),
                    None => Err(FsError::NotPermitted),
                },
                InoInfo::Refresh { .. } => Err(FsError::NotPermitted),
                _ => Err(FsError::IoError),
            },
            None => Err(FsError::NotFound),
        },
        _ => Err(FsError::NotPermitted),
    }
}

impl LearnFS {
    /// The arena's invariant: every child reference in range and every
    /// course followed by its four category lists.
    pub open spec fn wf(&self) -> bool {
        arena_ok(self.inos@)
    }

    /// The node an inode number names.  Every inode the filesystem hands
    /// out is in range; an out-of-range number is a caller defect.
    pub fn node(&self, ino: u64) -> (r: &InoInfo)
        requires
            ino < self.inos@.len(),
        ensures
            *r == self.inos@[ino as int],
    {
        // learning the length bounds it by the address space, so the
        // index cast below is exact
        let _n: usize = self.inos.len();
        &self.inos[ino as usize]
    }

    /// Mutable access to the node an inode number names.
    pub(crate) fn node_mut(&mut self, ino: u64) -> (r: &mut InoInfo)
        requires
            ino < old(self).inos@.len(),
        ensures
            *r == old(self).inos@[ino as int],
            final(self).inos@ == old(self).inos@.update(ino as int, *final(r)),
    {
        let _n: usize = self.inos.len();
        &mut self.inos[ino as usize]
    }

    /// A fresh filesystem: the unused index 0 and the empty root at 1.
    pub fn new() -> (r: LearnFS)
        ensures
            r.wf(),
            r.inos@.len() == 2,
            r.inos@[1] matches InoInfo::Root { users } && users@.len() == 0,
    {
        let mut inos: Vec<InoInfo> = Vec::new();
        inos.push(InoInfo::Root { users: Vec::new() });
        inos.push(InoInfo::Root { users: Vec::new() });
        let r = LearnFS { inos };
        proof {
            assert forall|i: int| 0 <= i < r.inos@.len() implies #[trigger] node_ok(r.inos@, i) by {
            }
        }
        r
    }

    /// Resolves `name` against the parent's listing and answers the
    /// child's attributes.  The caller performs due lazy population first;
    /// resolution itself never fetches.
    pub fn lookup(&self, parent: u64, name: &str) -> (r: Result<FileAttr, FsError>)
        requires
            self.wf(),
            parent < self.inos@.len(),
        ensures
            r == spec_lookup(self.inos@, parent, name@),
    {
        proof {
            assert(node_ok(self.inos@, parent as int));
        }
        match self.node(parent) {
            InoInfo::Root { users } => reply_dir_map(users, name),
            InoInfo::User { semesters } => reply_dir_map(semesters, name),
            InoInfo::Semester { courses } => reply_dir_map(courses, name),
            InoInfo::ItemList(m) => reply_dir_map(m, name),
            InoInfo::Item(m) => {
                match do_lookup(m, name) {
                    Some(ino) => {
                        proof {
                            lemma_find_entry_bound(m@, name@, self.inos@.len() as int);
                        }
                        match self.node(ino) {
                            InoInfo::Content(c) => Ok(file_attr(ino, c.bytes().len() as u64)),
                            InoInfo::SubmitHomework { .. } => Ok(file_attr(ino, 0)),
                            InoInfo::Refresh { .. } => Ok(file_attr(ino, 0)),
                            _ => Err(FsError::IoError),
                        }
                    },
                    None => Err(FsError::NotFound),
                }
            },
            InoInfo::Discussion { replies, .. } => {
                match do_lookup(replies, name) {
                    Some(ino) => {
                        proof {
                            lemma_find_entry_bound(replies@, name@, self.inos@.len() as int);
                        }
                        match self.node(ino) {
                            InoInfo::DiscussionReply { content, .. } => Ok(
                                file_attr(ino, content.as_str().len() as u64),
                            ),
                            InoInfo::Refresh { .. } => Ok(file_attr(ino, 0)),
                            _ => Err(FsError::IoError),
                        }
                    },
                    None => Err(FsError::NotFound),
                }
            },
            InoInfo::Course { .. } => {
                let n: usize = self.inos.len();
                proof {
                    assert(parent + 4 < n);
                    assert(parent + 4 < u64::MAX);
                }
                let key: String = name.to_owned();
                if key == "作业".to_owned() {
                    Ok(dir_attr(parent + 1))
                } else if key == "通知".to_owned() {
                    Ok(dir_attr(parent + 2))
                } else if key == "文件".to_owned() {
                    Ok(dir_attr(parent + 3))
                } else if key == "讨论".to_owned() {
                    Ok(dir_attr(parent + 4))
                } else {
                    Err(FsError::NotFound)
                }
            },
            _ => Err(FsError::NotPermitted),
        }
    }

    /// The node's attributes.  Every reply is advisory for this call only
    /// (zero cache lifetime), so a size change is observed immediately.
    pub fn getattr(&self, ino: u64) -> (r: FileAttr)
        requires
            self.wf(),
            ino < self.inos@.len(),
        ensures
            r == spec_getattr(self.inos@, ino),
    {
        match self.node(ino) {
            InoInfo::Content(c) => file_attr(ino, c.bytes().len() as u64),
            InoInfo::DiscussionReply { content, .. } => file_attr(
                ino,
                content.as_str().len() as u64,
            ),
            InoInfo::SubmitHomework { .. } => file_attr(ino, 0),
            InoInfo::Refresh { .. } => file_attr(ino, 0),
            _ => dir_attr(ino),
        }
    }

    /// Enumerates a directory from `offset`: `.`, `..`, then the listing
    /// in insertion order.  Each entry carries the offset at which a later
    /// call resumes after it, so enumeration may restart anywhere.
    pub fn readdir(&self, ino: u64, offset: i64) -> (r: Result<Vec<DirEntry>, FsError>)
        requires
            self.wf(),
            ino < self.inos@.len(),
            spec_listing(self.inos@, ino) matches Some(l) ==> l.len() + 2 < i64::MAX,
        ensures
            spec_listing(self.inos@, ino) is None ==> r == Err::<Vec<DirEntry>, FsError>(
                FsError::NotPermitted,
            ),
            spec_listing(self.inos@, ino) is Some ==> r is Ok && ({
                let rows = spec_rows(self.inos@, ino);
                let start = if offset < 0 {
                    0int
                } else if offset > rows.len() {
                    rows.len() as int
                } else {
                    offset as int
                };
                let v = r->Ok_0;
                &&& v@.len() == rows.len() - start
                &&& forall|j: int|
                    0 <= j < v@.len() ==> (#[trigger] v@[j]).name@ == rows[start + j].0
                        && v@[j].ino == rows[start + j].1 && v@[j].offset == start + j + 1
            }),
    {
        proof {
            assert(node_ok(self.inos@, ino as int));
        }
        let _arena_len: usize = self.inos.len();
        let listing: Option<&NameMap> = match self.node(ino) {
            InoInfo::Root { users } => Some(users),
            InoInfo::User { semesters } => Some(semesters),
            InoInfo::Semester { courses } => Some(courses),
            InoInfo::ItemList(m) => Some(m),
            InoInfo::Item(m) => Some(m),
            InoInfo::Discussion { replies, .. } => Some(replies),
            InoInfo::Course { .. } => None,
            _ => {
                return Err(FsError::NotPermitted);
            },
        };
        let ghost rows = spec_rows(self.inos@, ino);
        let mut v: Vec<DirEntry> = Vec::new();
        if offset < 1 {
            v.push(DirEntry { ino, offset: 1, name: ".".to_owned() });
        }
        if offset < 2 {
            v.push(DirEntry { ino, offset: 2, name: "..".to_owned() });
        }
        let ghost start = if offset < 0 {
            0int
        } else if offset > rows.len() {
            rows.len() as int
        } else {
            offset as int
        };
        match listing {
            Some(m) => {
                let n = m.len();
                let mut i: usize = if offset <= 2 {
                    0
                } else if (offset as u64) - 2 > (n as u64) {
                    n
                } else {
                    (offset - 2) as usize
                };
                proof {
                    assert(v@.len() == (if start < 2 { 2 - start } else { 0int }));
                    assert(i as int == (if start > 2 { start - 2 } else { 0int }));
                }
                while i < n
                    invariant
                        n == m@.len(),
                        rows == seq![("."@, ino), (".."@, ino)] + map_names(m@),
                        start <= rows.len(),
                        (i as int) + 2 >= start,
                        i <= n,
                        v@.len() == (i as int) + 2 - start,
                        n + 2 < i64::MAX,
                        forall|j: int|
                            0 <= j < v@.len() ==> (#[trigger] v@[j]).name@ == rows[start + j].0
                                && v@[j].ino == rows[start + j].1 && v@[j].offset == start + j + 1,
                    decreases n - i,
                {
                    let name = m[i].0.clone();
                    v.push(DirEntry { ino: m[i].1, offset: (i as i64) + 3, name });
                    proof {
                        assert(rows[start + (v@.len() - 1)] == (m@[i as int].0@, m@[i as int].1));
                    }
                    i = i + 1;
                }
                proof {
                    assert(v@.len() == rows.len() - start);
                }
            },
            None => {
                // a course's four fixed children, at the inodes after it
                proof {
                    assert(rows.len() == 6);
                }
                let mut i: usize = if offset <= 2 {
                    0
                } else if offset - 2 > 4 {
                    4
                } else {
                    (offset - 2) as usize
                };
                proof {
                    assert(v@.len() == (if start < 2 { 2 - start } else { 0int }));
                    assert(i as int == (if start > 2 { start - 2 } else { 0int }));
                }
                while i < 4
                    invariant
                        self.inos@[ino as int] is Course,
                        rows == spec_rows(self.inos@, ino),
                        rows.len() == 6,
                        ino + 4 < self.inos@.len() <= usize::MAX,
                        start <= rows.len(),
                        (i as int) + 2 >= start,
                        i <= 4,
                        v@.len() == (i as int) + 2 - start,
                        forall|j: int|
                            0 <= j < v@.len() ==> (#[trigger] v@[j]).name@ == rows[start + j].0
                                && v@[j].ino == rows[start + j].1 && v@[j].offset == start + j + 1,
                    decreases 4 - i,
                {
                    let name_lit: &str = if i == 0 {
                        "作业"
                    } else if i == 1 {
                        "通知"
                    } else if i == 2 {
                        "文件"
                    } else {
                        "讨论"
                    };
                    let name = name_lit.to_owned();
                    v.push(
                        DirEntry { ino: ino + 1 + (i as u64), offset: (i as i64) + 3, name },
                    );
                    proof {
                        let j = v@.len() - 1;
                        assert(start + j == i + 2);
                        if i == 0 {
                            assert(rows[i + 2] == ("作业"@, (ino + 1) as u64));
                        } else if i == 1 {
                            assert(rows[i + 2] == ("通知"@, (ino + 2) as u64));
                        } else if i == 2 {
                            assert(rows[i + 2] == ("文件"@, (ino + 3) as u64));
                        } else {
                            assert(rows[i + 2] == ("讨论"@, (ino + 4) as u64));
                        }
                    }
                    i = i + 1;
                }
                proof {
                    assert(v@.len() == rows.len() - start);
                }
            },
        }
        Ok(v)
    }

    /// Reads the node's bytes clipped to `[offset, offset + size)` and
    /// clamped to the data's length; past the end reads as empty, never as
    /// an error.
    pub fn read(&self, ino: u64, offset: i64, size: u32) -> (r: Result<Vec<u8>, FsError>)
        requires
            self.wf(),
            ino < self.inos@.len(),
            0 <= offset,
        ensures
            match spec_read_data(self.inos@, ino) {
                Err(e) => r == Err::<Vec<u8>, FsError>(e),
                Ok(data) => r is Ok && ({
                    let start = if offset > data.len() {
                        data.len() as int
                    } else {
                        offset as int
                    };
                    let end = if offset + size > data.len() {
                        data.len() as int
                    } else {
                        offset + size
                    };
                    r->Ok_0@ == data.subrange(start, end)
                }),
            },
    {
        match self.node(ino) {
            InoInfo::Content(c) => Ok(clip_bytes(c.bytes(), offset, size)),
            InoInfo::DiscussionReply { content, .. } => Ok(
                clip_bytes(content.as_str().as_bytes(), offset, size),
            ),
            InoInfo::SubmitHomework { .. } => {
                let v: Vec<u8> = Vec::new();
                proof {
                    assert(v@ =~= Seq::<u8>::empty().subrange(0, 0));
                }
                Ok(v)
            },
            InoInfo::Refresh { .. } => {
                let v: Vec<u8> = Vec::new();
                proof {
                    assert(v@ =~= Seq::<u8>::empty().subrange(0, 0));
                }
                Ok(v)
            },
            _ => Err(FsError::NotPermitted),
        }
    }

    /// The remote address an `open` must resolve first, if the node is
    /// content still in address form.  Every other node opens as it is.
    pub fn unresolved_url(&self, ino: u64) -> (r: Option<(String, u64)>)
        requires
            self.wf(),
            ino < self.inos@.len(),
        ensures
            match r {
                Some(p) => self.inos@[ino as int] matches InoInfo::Content(Content::Url(u, c))
                    && p.0@ == u@ && p.1 == c,
                None => !(self.inos@[ino as int] matches InoInfo::Content(Content::Url(_, _))),
            },
    {
        match self.node(ino) {
            InoInfo::Content(Content::Url(u, c)) => Some((u.clone(), *c)),
            _ => None,
        }
    }

    /// Commits the bytes an `open` fetched: the node leaves address form,
    /// once and for all.  Nothing else changes; on a failed fetch the
    /// caller simply never commits, and the node stays retryable.
    pub fn resolve_content(&mut self, ino: u64, data: Vec<u8>)
        requires
            old(self).wf(),
            ino < old(self).inos@.len(),
            old(self).inos@[ino as int] matches InoInfo::Content(Content::Url(_, _)),
        ensures
            final(self).wf(),
            final(self).inos@ == old(self).inos@.update(
                ino as int,
                InoInfo::Content(Content::Data(data)),
            ),
    {
        let ghost old_nodes = self.inos@;
        // bound the length so the index cast is exact
        let _n: usize = self.inos.len();
        self.inos[ino as usize] = InoInfo::Content(Content::Data(data));
        proof {
            lemma_arena_update(
                old_nodes,
                ino as int,
                InoInfo::Content(Content::Data(data)),
            );
        }
    }

    /// The fetch that must precede listing this node, if any: course
    /// content while the course is unfetched, a discussion's replies while
    /// only the refresh sentinel is present.
    pub fn needs_population(&self, ino: u64) -> (r: Option<FetchRequest>)
        requires
            self.wf(),
            ino < self.inos@.len(),
        ensures
            r == spec_needs_population(self.inos@, ino),
    {
        match self.node(ino) {
            InoInfo::Course { id, client, fetched } => {
                if !*fetched {
                    Some(FetchRequest::CourseContent { id: id.clone(), client: *client })
                } else {
                    None
                }
            },
            InoInfo::Discussion { course, discussion, board, client, replies } => {
                if replies.len() == 1 {
                    Some(
                        FetchRequest::DiscussionReplies {
                            course: course.clone(),
                            discussion: discussion.clone(),
                            board: board.clone(),
                            client: *client,
                        },
                    )
                } else {
                    None
                }
            },
            _ => None,
        }
    }

    /// The remote command a write to this node triggers.  Writes never
    /// store data: a node that defines no command refuses the write.
    pub fn write_action(&self, ino: u64) -> (r: Result<WriteCmd, FsError>)
        requires
            self.wf(),
            ino < self.inos@.len(),
        ensures
            r == spec_write_action(self.inos@, ino),
    {
        match self.node(ino) {
            InoInfo::SubmitHomework { student_homework, client } => Ok(
                WriteCmd::SubmitHomework {
                    student_homework: student_homework.clone(),
                    client: *client,
                },
            ),
            InoInfo::DiscussionReply { course, discussion, id, client, .. } => Ok(
                WriteCmd::ReplyDiscussion {
                    course: course.clone(),
                    discussion: discussion.clone(),
                    reply_id: match id {
                        Some(x) => Some(x.clone()),
                        None => None,
                    },
                    client: *client,
                },
            ),
            InoInfo::Refresh { parent, client, info } => match info {
                RefreshInfo::Homework { course, homework } => Ok(
                    WriteCmd::RefreshHomework {
                        parent: *parent,
                        course: course.clone(),
                        homework: homework.clone(),
                        client: *client,
                    },
                ),
                RefreshInfo::Discussion => Ok(
                    WriteCmd::RefreshDiscussion { parent: *parent, client: *client },
                ),
            },
            _ => Err(FsError::NotPermitted),
        }
    }

    /// The remote deletion an `unlink` of `name` under `parent` stands
    /// for.  Read-only: the entry leaves the map only when the caller
    /// commits a successful remote deletion.
    pub fn unlink_target(&self, parent: u64, name: &str) -> (r: Result<DeleteReply, FsError>)
        requires
            self.wf(),
            parent < self.inos@.len(),
        ensures
            r == spec_unlink_target(self.inos@, parent, name@),
    {
        proof {
            assert(node_ok(self.inos@, parent as int));
        }
        match self.node(parent) {
            InoInfo::Discussion { replies, .. } => {
                match do_lookup(replies, name) {
                    Some(ino) => {
                        proof {
                            lemma_find_entry_bound(replies@, name@, self.inos@.len() as int);
                        }
                        match self.node(ino) {
                            InoInfo::DiscussionReply { course, id, client, .. } => match id {
                                Some(reply) => Ok(
                                    DeleteReply {
                                        course: course.clone(),
                                        reply: reply.clone(),
                                        client: *client,
                                    },
                                ),
                                None => Err(FsError::NotPermitted),
                            },
                            InoInfo::Refresh { .. } => Err(FsError::NotPermitted),
                            _ => Err(FsError::IoError),
                        }
                    },
                    None => Err(FsError::NotFound),
                }
            },
            _ => Err(FsError::NotPermitted),
        }
    }
}

impl LearnFS {
    /// Commits a successful remote deletion: the named reply leaves the
    /// parent discussion's listing, and nothing else changes.  The reply's
    /// own inode stays in the arena; only the name map forgets it.
    pub fn unlink_commit(&mut self, parent: u64, name: &str) -> (r: Result<(), FsError>)
        requires
            old(self).wf(),
            parent < old(self).inos@.len(),
        ensures
            final(self).wf(),
            final(self).inos@.len() == old(self).inos@.len(),
            forall|k: int|
                0 <= k < old(self).inos@.len() && k != parent ==> final(self).inos@[k] == old(
                    self,
                ).inos@[k],
            match old(self).inos@[parent as int] {
                InoInfo::Discussion { course, discussion, board, client, replies } => match
                    find_index(replies@, name@) {
                    Some(i) => {
                        let node = final(self).inos@[parent as int];
                        &&& r is Ok
                        &&& node is Discussion
                        &&& node->Discussion_course == course
                        &&& node->Discussion_discussion == discussion
                        &&& node->Discussion_board == board
                        &&& node->Discussion_client == client
                        &&& node->Discussion_replies@ == replies@.remove(i)
                    },
                    None => r == Err::<(), FsError>(FsError::NotFound) && *final(self) == *old(
                        self,
                    ),
                },
                _ => r == Err::<(), FsError>(FsError::NotPermitted) && *final(self) == *old(
                    self,
                ),
            },
    {
        let ghost old_nodes = self.inos@;
        let idx_opt: Option<Option<usize>> = match self.node(parent) {
            InoInfo::Discussion { replies, .. } => Some(do_lookup_index(replies, name)),
            _ => None,
        };
        match idx_opt {
            None => Err(FsError::NotPermitted),
            Some(None) => Err(FsError::NotFound),
            Some(Some(i)) => {
                proof {
                    lemma_find_entry_index(
                        old_nodes[parent as int]->Discussion_replies@,
                        name@,
                    );
                }
                let node = self.node_mut(parent);
                match node {
                    InoInfo::Discussion { replies, .. } => {
                        let _removed = replies.remove(i);
                    },
                    _ => {},
                }
                proof {
                    let old_replies = old_nodes[parent as int]->Discussion_replies@;
                    let new_node = self.inos@[parent as int];
                    assert(new_node->Discussion_replies@ =~= old_replies.remove(i as int));
                    assert(map_ok(new_node->Discussion_replies@, old_nodes.len() as int)) by {
                        assert(node_ok(old_nodes, parent as int));
                        assert forall|k: int|
                            0 <= k < old_replies.remove(i as int).len() implies (
                        #[trigger] old_replies.remove(i as int)[k]).1 < old_nodes.len() by {
                            if k < i {
                                assert(old_replies.remove(i as int)[k] == old_replies[k]);
                            } else {
                                assert(old_replies.remove(i as int)[k] == old_replies[k + 1]);
                            }
                        }
                    }
                    lemma_arena_update(old_nodes, parent as int, new_node);
                }
                Ok(())
            },
        }
    }

    /// A refresh write on a discussion: the replies map shrinks back to
    /// its refresh sentinel, so the next listing re-fetches everything.
    /// The refresh action names its parent; any other target is a
    /// construction defect.
    pub fn refresh_discussion(&mut self, parent: u64) -> (r: Result<(), FsError>)
        requires
            old(self).wf(),
            parent < old(self).inos@.len(),
        ensures
            final(self).wf(),
            final(self).inos@.len() == old(self).inos@.len(),
            forall|k: int|
                0 <= k < old(self).inos@.len() && k != parent ==> final(self).inos@[k] == old(
                    self,
                ).inos@[k],
            match old(self).inos@[parent as int] {
                InoInfo::Discussion { course, discussion, board, client, replies } => {
                    let node = final(self).inos@[parent as int];
                    &&& r is Ok
                    &&& node is Discussion
                    &&& node->Discussion_course == course
                    &&& node->Discussion_discussion == discussion
                    &&& node->Discussion_board == board
                    &&& node->Discussion_client == client
                    &&& node->Discussion_replies@ == (if replies@.len() >= 1 {
                        replies@.subrange(0, 1)
                    } else {
                        replies@
                    })
                },
                _ => r == Err::<(), FsError>(FsError::IoError) && *final(self) == *old(self),
            },
    {
        let ghost old_nodes = self.inos@;
        let is_discussion = match self.node(parent) {
            InoInfo::Discussion { .. } => true,
            _ => false,
        };
        if !is_discussion {
            return Err(FsError::IoError);
        }
        let node = self.node_mut(parent);
        match node {
            InoInfo::Discussion { replies, .. } => {
                replies.truncate(1);
            },
            _ => {},
        }
        proof {
            let old_replies = old_nodes[parent as int]->Discussion_replies@;
            let new_node = self.inos@[parent as int];
            assert(map_ok(new_node->Discussion_replies@, old_nodes.len() as int)) by {
                assert(node_ok(old_nodes, parent as int));
            }
            lemma_arena_update(old_nodes, parent as int, new_node);
        }
        Ok(())
    }
}

fn reply_dir_map(m: &NameMap, name: &str) -> (r: Result<FileAttr, FsError>)
    ensures
        r == dir_map_lookup(m@, name@),
{
    match do_lookup(m, name) {
        Some(ino) => Ok(dir_attr(ino)),
        None => Err(FsError::NotFound),
    }
}

/// The bytes of `b` from `offset`, at most `size` of them, clamped to the
/// available length.
fn clip_bytes(b: &[u8], offset: i64, size: u32) -> (r: Vec<u8>)
    requires
        0 <= offset,
    ensures
        r@ == b@.subrange(
            if offset > b@.len() {
                b@.len() as int
            } else {
                offset as int
            },
            if offset + size > b@.len() {
                b@.len() as int
            } else {
                offset + size
            },
        ),
{
    let n: usize = b.len();
    let start: usize = if (offset as u64) > (n as u64) {
        n
    } else {
        offset as usize
    };
    let end_wide: u64 = (offset as u64) + (size as u64);
    let end: usize = if end_wide > (n as u64) {
        n
    } else {
        end_wide as usize
    };
    let mut v: Vec<u8> = Vec::new();
    let mut i: usize = start;
    while i < end
        invariant
            start <= i <= end || i == start,
            i >= start,
            end <= n,
            n == b@.len(),
            v@ == b@.subrange(start as int, i as int),
        decreases end - i,
    {
        let x: u8 = *slice_index_get(b, i);
        v.push(x);
        proof {
            assert(v@ =~= b@.subrange(start as int, i + 1));
        }
        i = i + 1;
    }
    proof {
        if start >= end {
            assert(v@ =~= b@.subrange(start as int, start as int));
        }
    }
    v
}

} // verus!

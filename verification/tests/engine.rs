use learn_fs::arena::{Content, InoInfo, RefreshInfo};
use learn_fs::fs::{FetchRequest, FileKind, FsError, LearnFS, WriteCmd};
use learn_fs::types::{
    Course, Discussion, DiscussionReply, DiscussionSubReply, File, Homework, HomeworkDetail,
    Notification, SemesterCourses,
};

fn course(id: &str, name: &str) -> Course {
    Course {
        id: id.to_string(),
        name: name.to_string(),
        english_name: String::new(),
        teacher_name: String::new(),
        teacher_number: String::new(),
        course_number: String::new(),
        course_index: 0,
        time_location: Vec::new(),
    }
}

fn homework(id: &str, title: &str, description: &str) -> Homework {
    Homework {
        course_id: "c1".to_string(),
        id: id.to_string(),
        student_homework_id: format!("sh-{}", id),
        title: title.to_string(),
        assign_time: "2020-01-01 08:00".to_string(),
        deadline: "2020-01-08 08:00".to_string(),
        submit_time: None,
        submit_content: None,
        grade: None,
        grade_time: None,
        grader_name: None,
        grade_content: None,
        detail: HomeworkDetail {
            description: description.to_string(),
            attachment_name_url: None,
            submit_attachment_name_url: None,
            grade_attachment_name_url: None,
        },
    }
}

fn names_of(fs: &LearnFS, ino: u64) -> Vec<String> {
    fs.readdir(ino, 0)
        .unwrap()
        .into_iter()
        .map(|e| e.name)
        .collect()
}

/// One user logs in with a single course; the category directories exist
/// at once but stay empty until first listed, and the first listing of
/// the homework category materializes the homework's detail entries.
#[test]
fn login_builds_tree_and_population_fills_homework() {
    let mut fs = LearnFS::new();
    assert_eq!(names_of(&fs, 1), vec![".", ".."]);
    let sems = vec![SemesterCourses {
        id: "2020-2021-1".to_string(),
        courses: vec![course("c1", "算法")],
    }];
    let attr = fs.mkdir(1, "alice", Some((7, sems))).unwrap();
    assert_eq!(attr.kind, FileKind::Directory);
    let user = attr.ino;

    // the user shows under the root, the semester under the user
    let looked = fs.lookup(1, "alice").unwrap();
    assert_eq!(looked.ino, user);
    assert_eq!(names_of(&fs, user), vec![".", "..", "2020-2021-秋"]);
    let sem = fs.lookup(user, "2020-2021-秋").unwrap().ino;
    assert_eq!(names_of(&fs, sem), vec![".", "..", "算法"]);
    let c = fs.lookup(sem, "算法").unwrap().ino;

    // the four category directories, in order, right after the course
    assert_eq!(names_of(&fs, c), vec![".", "..", "作业", "通知", "文件", "讨论"]);
    let hw_list = fs.lookup(c, "作业").unwrap().ino;
    assert_eq!(hw_list, c + 1);
    assert_eq!(fs.lookup(c, "讨论").unwrap().ino, c + 4);

    // empty until first listed
    assert_eq!(names_of(&fs, hw_list), vec![".", ".."]);
    match fs.needs_population(c) {
        Some(FetchRequest::CourseContent { id, client }) => {
            assert_eq!(id, "c1");
            assert_eq!(client, 7);
        }
        _ => panic!("an unfetched course must ask for its content"),
    }

    let hs = vec![homework("z1", "第一次作业", "写一个解析器")];
    fs.populate_course(c, &hs, &Vec::new(), &Vec::new(), &Vec::new());
    assert!(fs.needs_population(c).is_none());

    assert_eq!(names_of(&fs, hw_list), vec![".", "..", "第一次作业"]);
    let item = fs.lookup(hw_list, "第一次作业").unwrap().ino;
    assert_eq!(
        names_of(&fs, item),
        vec![".", "..", "提交作业", "刷新", "描述", "发布时间", "截止时间"]
    );
    let desc = fs.lookup(item, "描述").unwrap();
    assert_eq!(desc.kind, FileKind::RegularFile);
    let bytes = fs.read(desc.ino, 0, 4096).unwrap();
    assert_eq!(bytes, "写一个解析器".as_bytes());
    let deadline = fs.lookup(item, "截止时间").unwrap().ino;
    assert_eq!(fs.read(deadline, 0, 4096).unwrap(), b"2020-01-08 08:00");

    // the two action files read as empty
    let submit = fs.lookup(item, "提交作业").unwrap();
    assert_eq!(submit.size, 0);
    assert_eq!(fs.read(submit.ino, 0, 100).unwrap(), Vec::<u8>::new());
}

/// Populating the same unfetched course twice fetches once: the second
/// round is a no-op and observes the children of the first.
#[test]
fn population_is_idempotent() {
    let mut fs = LearnFS::new();
    let sems = vec![SemesterCourses {
        id: "2019-2020-2".to_string(),
        courses: vec![course("c1", "物理")],
    }];
    let user = fs.mkdir(1, "bob", Some((1, sems))).unwrap().ino;
    let sem = fs.lookup(user, "2019-2020-春").unwrap().ino;
    let c = fs.lookup(sem, "物理").unwrap().ino;

    let hs = vec![homework("z1", "hw", "d1")];
    fs.populate_course(c, &hs, &Vec::new(), &Vec::new(), &Vec::new());
    let first = names_of(&fs, c + 1);
    let arena_len = fs.inos.len();

    // a second round with different data changes nothing
    let other = vec![homework("z2", "other", "d2")];
    fs.populate_course(c, &other, &Vec::new(), &Vec::new(), &Vec::new());
    assert!(fs.needs_population(c).is_none());
    assert_eq!(names_of(&fs, c + 1), first);
    assert_eq!(fs.inos.len(), arena_len);
}

/// readdir yields insertion order and resumes at any offset: reading the
/// tail first and the head later reassembles the same full listing.
#[test]
fn readdir_order_and_partial_offsets() {
    let mut fs = LearnFS::new();
    fs.inos.push(InoInfo::ItemList(vec![
        ("a".to_string(), 1),
        ("b".to_string(), 1),
        ("c".to_string(), 1),
        ("d".to_string(), 1),
    ]));
    let full = names_of(&fs, 2);
    assert_eq!(full, vec![".", "..", "a", "b", "c", "d"]);

    // offsets 4.. first (rows c and d), then 0..4
    let tail = fs.readdir(2, 4).unwrap();
    let tail_names: Vec<String> = tail.iter().map(|e| e.name.clone()).collect();
    assert_eq!(tail_names, vec!["c", "d"]);
    let head = fs.readdir(2, 0).unwrap();
    let mut rebuilt: Vec<String> = head[..4].iter().map(|e| e.name.clone()).collect();
    rebuilt.extend(tail_names);
    assert_eq!(rebuilt, full);

    // each entry names the offset to resume after it
    assert_eq!(head[0].offset, 1);
    assert_eq!(head[2].offset, 3);
    assert_eq!(tail[0].offset, 5);

    // an offset past the end reads as empty, never as an error
    assert!(fs.readdir(2, 100).unwrap().is_empty());
}

/// A content node in address form reads as empty; the first open resolves
/// it once and for all, and a second open finds nothing left to fetch.
#[test]
fn content_resolves_once() {
    let mut fs = LearnFS::new();
    fs.inos.push(InoInfo::Content(Content::Url("http://e/x".to_string(), 3)));
    assert_eq!(fs.read(2, 0, 100).unwrap(), Vec::<u8>::new());
    assert_eq!(fs.getattr(2).size, 0);

    let (url, client) = fs.unresolved_url(2).unwrap();
    assert_eq!(url, "http://e/x");
    assert_eq!(client, 3);

    fs.resolve_content(2, b"DATA".to_vec());
    assert!(fs.unresolved_url(2).is_none());
    assert_eq!(fs.read(2, 0, 100).unwrap(), b"DATA".to_vec());
    assert_eq!(fs.getattr(2).size, 4);

    // reads clip and clamp
    assert_eq!(fs.read(2, 1, 2).unwrap(), b"AT".to_vec());
    assert_eq!(fs.read(2, 2, 100).unwrap(), b"TA".to_vec());
    assert_eq!(fs.read(2, 10, 5).unwrap(), Vec::<u8>::new());
}

/// A homework refresh keeps the item's first two children — the submit
/// and refresh actions — in identity, and replaces the rest.
#[test]
fn homework_refresh_truncates_to_actions() {
    let mut fs = LearnFS::new();
    let sems = vec![SemesterCourses {
        id: "2020-2021-3".to_string(),
        courses: vec![course("c1", "数学")],
    }];
    let user = fs.mkdir(1, "eve", Some((2, sems))).unwrap().ino;
    let sem = fs.lookup(user, "2020-2021-夏").unwrap().ino;
    let c = fs.lookup(sem, "数学").unwrap().ino;
    fs.populate_course(
        c,
        &vec![homework("z1", "hw", "old text")],
        &Vec::new(),
        &Vec::new(),
        &Vec::new(),
    );
    let item = fs.lookup(c + 1, "hw").unwrap().ino;
    let submit = fs.lookup(item, "提交作业").unwrap().ino;
    let refresh = fs.lookup(item, "刷新").unwrap().ino;
    let old_desc = fs.lookup(item, "描述").unwrap().ino;

    // the refresh action names its parent and the homework to re-fetch
    match fs.write_action(refresh).unwrap() {
        WriteCmd::RefreshHomework { parent, course, homework: hw_id, client } => {
            assert_eq!(parent, item);
            assert_eq!(course, "c1");
            assert_eq!(hw_id, "z1");
            assert_eq!(client, 2);
        }
        _ => panic!("a homework refresh node must ask to re-fetch its homework"),
    }

    let mut renewed = homework("z1", "hw", "new text");
    renewed.grade = Some("95".to_string());
    fs.refresh_homework(item, "z1", &vec![renewed], 2).unwrap();

    assert_eq!(fs.lookup(item, "提交作业").unwrap().ino, submit);
    assert_eq!(fs.lookup(item, "刷新").unwrap().ino, refresh);
    let new_desc = fs.lookup(item, "描述").unwrap().ino;
    assert_ne!(new_desc, old_desc);
    assert_eq!(fs.read(new_desc, 0, 100).unwrap(), b"new text".to_vec());
    let grade = fs.lookup(item, "成绩").unwrap().ino;
    assert_eq!(fs.read(grade, 0, 100).unwrap(), b"95".to_vec());

    // a refresh for an identifier no longer listed is silently a no-op
    let before = names_of(&fs, item);
    fs.refresh_homework(item, "gone", &Vec::new(), 2).unwrap();
    assert_eq!(names_of(&fs, item), before);
}

fn discussion_fs() -> (LearnFS, u64) {
    let mut fs = LearnFS::new();
    fs.inos.push(InoInfo::Discussion {
        course: "c1".to_string(),
        discussion: "d1".to_string(),
        board: "b1".to_string(),
        client: 5,
        replies: vec![("刷新".to_string(), 3)],
    });
    fs.inos.push(InoInfo::Refresh {
        parent: 2,
        client: 5,
        info: RefreshInfo::Discussion,
    });
    (fs, 2)
}

fn one_thread() -> Vec<DiscussionReply> {
    vec![DiscussionReply {
        id: None,
        author: "张三".to_string(),
        publish_time: "2020-05-01 10:00:00".to_string(),
        content: "开贴".to_string(),
        replies: vec![DiscussionSubReply {
            id: Some("r9".to_string()),
            author: "李四".to_string(),
            publish_time: "2020-05-02 11:00:00".to_string(),
            content: "回帖".to_string(),
        }],
    }]
}

/// Unlink on the thread-opening reply (which has no id) fails and leaves
/// the listing unchanged; unlink on a normal reply, once the remote
/// deletion succeeded, removes exactly that entry.
#[test]
fn unlink_deletes_only_replies_with_an_id() {
    let (mut fs, d) = discussion_fs();
    match fs.needs_population(d) {
        Some(FetchRequest::DiscussionReplies { course, discussion, board, client }) => {
            assert_eq!(course, "c1");
            assert_eq!(discussion, "d1");
            assert_eq!(board, "b1");
            assert_eq!(client, 5);
        }
        _ => panic!("a sentinel-only discussion must ask for its replies"),
    }
    fs.populate_discussion(d, &one_thread());
    assert!(fs.needs_population(d).is_none());
    let opening = "0楼-张三-2020-05-01 10:00:00";
    let nested = "0楼-回复0-李四-2020-05-02 11:00:00";
    assert_eq!(names_of(&fs, d), vec![".", "..", "刷新", opening, nested]);

    // the opening post cannot be deleted, nor can the refresh action
    assert_eq!(fs.unlink_target(d, opening).unwrap_err(), FsError::NotPermitted);
    assert_eq!(fs.unlink_target(d, "刷新").unwrap_err(), FsError::NotPermitted);
    assert_eq!(fs.unlink_target(d, "no such").unwrap_err(), FsError::NotFound);
    assert_eq!(names_of(&fs, d), vec![".", "..", "刷新", opening, nested]);

    let del = fs.unlink_target(d, nested).unwrap();
    assert_eq!(del.course, "c1");
    assert_eq!(del.reply, "r9");
    assert_eq!(del.client, 5);
    fs.unlink_commit(d, nested).unwrap();
    assert_eq!(names_of(&fs, d), vec![".", "..", "刷新", opening]);
}

/// Writing a reply node answers the thread or the reply itself; a
/// discussion refresh forgets everything but the sentinel, so the next
/// listing asks for the replies again.
#[test]
fn reply_writes_and_discussion_refresh() {
    let (mut fs, d) = discussion_fs();
    fs.populate_discussion(d, &one_thread());
    let opening = fs.lookup(d, "0楼-张三-2020-05-01 10:00:00").unwrap();
    assert_eq!(opening.size, "开贴".as_bytes().len() as u64);
    assert_eq!(fs.read(opening.ino, 0, 100).unwrap(), "开贴".as_bytes());
    match fs.write_action(opening.ino).unwrap() {
        WriteCmd::ReplyDiscussion { course, discussion, reply_id, client } => {
            assert_eq!(course, "c1");
            assert_eq!(discussion, "d1");
            assert!(reply_id.is_none());
            assert_eq!(client, 5);
        }
        _ => panic!("writing a reply node must post a reply"),
    }
    let nested = fs.lookup(d, "0楼-回复0-李四-2020-05-02 11:00:00").unwrap().ino;
    match fs.write_action(nested).unwrap() {
        WriteCmd::ReplyDiscussion { reply_id, .. } => {
            assert_eq!(reply_id.as_deref(), Some("r9"));
        }
        _ => panic!("writing a reply node must post a reply"),
    }

    // refresh: back to the sentinel, and population is due again
    let refresh = fs.lookup(d, "刷新").unwrap().ino;
    match fs.write_action(refresh).unwrap() {
        WriteCmd::RefreshDiscussion { parent, client } => {
            assert_eq!(parent, d);
            assert_eq!(client, 5);
        }
        _ => panic!("a discussion refresh node must forget the replies"),
    }
    fs.refresh_discussion(d).unwrap();
    assert_eq!(names_of(&fs, d), vec![".", "..", "刷新"]);
    assert!(fs.needs_population(d).is_some());
}

/// A failed login leaves the root's user map exactly as before: no
/// subtree is appended, no entry committed.
#[test]
fn failed_login_leaves_no_partial_state() {
    let mut fs = LearnFS::new();
    let before_len = fs.inos.len();
    assert_eq!(fs.mkdir(1, "mallory", None).unwrap_err(), FsError::IoError);
    assert_eq!(fs.inos.len(), before_len);
    assert_eq!(names_of(&fs, 1), vec![".", ".."]);
    assert_eq!(fs.lookup(1, "mallory").unwrap_err(), FsError::NotFound);
}

#[test]
fn operations_refused_on_wrong_nodes() {
    let mut fs = LearnFS::new();
    fs.inos.push(InoInfo::Content(Content::Data(b"x".to_vec())));
    // a file owns no children and accepts no mkdir, no unlink, no write
    assert_eq!(fs.lookup(2, "y").unwrap_err(), FsError::NotPermitted);
    assert_eq!(fs.readdir(2, 0).unwrap_err(), FsError::NotPermitted);
    assert_eq!(fs.mkdir(2, "u", None).unwrap_err(), FsError::NotPermitted);
    assert_eq!(fs.unlink_target(2, "y").unwrap_err(), FsError::NotPermitted);
    assert_eq!(fs.write_action(2).unwrap_err(), FsError::NotPermitted);
    // the root is a directory: reading it is refused, looking up misses
    assert_eq!(fs.read(1, 0, 10).unwrap_err(), FsError::NotPermitted);
    assert_eq!(fs.lookup(1, "nobody").unwrap_err(), FsError::NotFound);
    // directory attributes are fixed
    let attr = fs.getattr(1);
    assert_eq!(attr.kind, FileKind::Directory);
    assert_eq!(attr.perm, 0o777);
    assert_eq!(attr.nlink, 2);
    assert_eq!(attr.uid, 1000);
}

/// The submit action carries the student-homework reference of its item.
#[test]
fn submit_action_names_its_reference() {
    let mut fs = LearnFS::new();
    let sems = vec![SemesterCourses {
        id: "2021-2022-1".to_string(),
        courses: vec![course("c1", "化学")],
    }];
    let user = fs.mkdir(1, "dan", Some((9, sems))).unwrap().ino;
    let sem = fs.lookup(user, "2021-2022-秋").unwrap().ino;
    let c = fs.lookup(sem, "化学").unwrap().ino;
    fs.populate_course(
        c,
        &vec![homework("z7", "hw", "d")],
        &Vec::new(),
        &Vec::new(),
        &Vec::new(),
    );
    let item = fs.lookup(c + 1, "hw").unwrap().ino;
    let submit = fs.lookup(item, "提交作业").unwrap().ino;
    match fs.write_action(submit).unwrap() {
        WriteCmd::SubmitHomework { student_homework, client } => {
            assert_eq!(student_homework, "sh-z7");
            assert_eq!(client, 9);
        }
        _ => panic!("writing the submit node must submit homework"),
    }
}

/// Notifications and files populate with their markers, counters and
/// attachments; attachments stay unresolved addresses until opened.
#[test]
fn notifications_and_files_populate() {
    let mut fs = LearnFS::new();
    let sems = vec![SemesterCourses {
        id: "2022-2023-2".to_string(),
        courses: vec![course("c1", "历史")],
    }];
    let user = fs.mkdir(1, "fay", Some((4, sems))).unwrap().ino;
    let sem = fs.lookup(user, "2022-2023-春").unwrap().ino;
    let c = fs.lookup(sem, "历史").unwrap().ino;
    let n = Notification {
        course_id: "c1".to_string(),
        id: "n1".to_string(),
        title: "停课通知".to_string(),
        content: "下周停课".to_string(),
        read: true,
        important: false,
        publish_time: "2022-03-01 09:00:00".to_string(),
        publisher: "王老师".to_string(),
        attachment_name: Some("附表.xls".to_string()),
        attachment_url: Some("http://e/n1".to_string()),
    };
    let f = File {
        id: "f1".to_string(),
        title: "讲义".to_string(),
        description: "第一章".to_string(),
        raw_size: 2048,
        size: "2K".to_string(),
        upload_time: "2022-03-02 10:00:00".to_string(),
        new: true,
        important: true,
        visit_count: 12,
        download_count: 3,
        file_type: "pdf".to_string(),
    };
    fs.populate_course(c, &Vec::new(), &vec![n], &vec![f], &Vec::new());

    // the notification item, under the notifications category
    let nf = fs.lookup(c + 2, "停课通知").unwrap().ino;
    assert_eq!(
        names_of(&fs, nf),
        vec![".", "..", "内容", "发布时间", "发布老师", "已读", "重要", "通知附件：附表.xls"]
    );
    let read_flag = fs.lookup(nf, "已读").unwrap().ino;
    assert_eq!(fs.read(read_flag, 0, 100).unwrap(), "是".as_bytes());
    let important_flag = fs.lookup(nf, "重要").unwrap().ino;
    assert_eq!(fs.read(important_flag, 0, 100).unwrap(), "否".as_bytes());
    let attach = fs.lookup(nf, "通知附件：附表.xls").unwrap().ino;
    let (url, client) = fs.unresolved_url(attach).unwrap();
    assert_eq!(url, "http://e/n1");
    assert_eq!(client, 4);

    // the file item, under the files category
    let fi = fs.lookup(c + 3, "讲义").unwrap().ino;
    assert_eq!(
        names_of(&fs, fi),
        vec![".", "..", "描述", "大小", "上传时间", "已读", "重要", "访问次数", "下载次数", "讲义.pdf"]
    );
    let visits = fs.lookup(fi, "访问次数").unwrap().ino;
    assert_eq!(fs.read(visits, 0, 100).unwrap(), b"12".to_vec());
    let downloads = fs.lookup(fi, "下载次数").unwrap().ino;
    assert_eq!(fs.read(downloads, 0, 100).unwrap(), b"3".to_vec());
    // the file's `new` marker reads inverted, as "already read"
    let seen = fs.lookup(fi, "已读").unwrap().ino;
    assert_eq!(fs.read(seen, 0, 100).unwrap(), "否".as_bytes());
    let (furl, _) = fs.unresolved_url(fs.lookup(fi, "讲义.pdf").unwrap().ino).unwrap();
    assert_eq!(furl, learn_fs::urls::FILE_DOWNLOAD("f1"));

    // a homework attachment resolves through open like any content
    fs.populate_course(c, &Vec::new(), &Vec::new(), &Vec::new(), &Vec::new());
    fs.resolve_content(attach, b"SHEET".to_vec());
    assert_eq!(fs.read(attach, 0, 100).unwrap(), b"SHEET".to_vec());
    assert!(fs.unresolved_url(attach).is_none());
}

/// A populated course lists its discussions, and the discussion starts
/// with only the refresh sentinel.
#[test]
fn discussions_populate_with_sentinel() {
    let mut fs = LearnFS::new();
    let sems = vec![SemesterCourses {
        id: "2022-2023-1".to_string(),
        courses: vec![course("c1", "音乐")],
    }];
    let user = fs.mkdir(1, "gil", Some((6, sems))).unwrap().ino;
    let sem = fs.lookup(user, "2022-2023-秋").unwrap().ino;
    let c = fs.lookup(sem, "音乐").unwrap().ino;
    let d = Discussion {
        id: "d1".to_string(),
        board_id: "b1".to_string(),
        title: "期末讨论".to_string(),
        publisher_name: "p".to_string(),
        publish_time: "2022-12-01 09:00:00".to_string(),
        last_replier_name: None,
        last_reply_time: None,
        visit_count: 0,
        reply_count: 0,
    };
    fs.populate_course(c, &Vec::new(), &Vec::new(), &Vec::new(), &vec![d]);
    let thread = fs.lookup(c + 4, "期末讨论").unwrap().ino;
    assert_eq!(names_of(&fs, thread), vec![".", "..", "刷新"]);
    match fs.needs_population(thread) {
        Some(FetchRequest::DiscussionReplies { course, discussion, board, client }) => {
            assert_eq!(course, "c1");
            assert_eq!(discussion, "d1");
            assert_eq!(board, "b1");
            assert_eq!(client, 6);
        }
        _ => panic!("a fresh discussion must ask for its replies"),
    }
}

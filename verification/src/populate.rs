//! The lazy population engine.
//!
//! Remote content becomes inode subtrees here: a course's homework,
//! notification, file and discussion lists, a discussion's replies, a
//! fresh login's semester and course tree, and the rebuilt detail of a
//! refreshed homework.  The remote records arrive as plain values; the
//! engine turns each into an `Item` (or `Discussion`) subtree appended to
//! the arena and linked into the owning name map.

use vstd::prelude::*;
use vstd::string::{StrSliceExecFns, StringExecFns};
use vstd::utf8::encode_utf8;

use crate::arena::{lemma_arena_extend, lemma_arena_update, map_ok, node_ok, Content, InoInfo, NameMap, RefreshInfo};
use crate::text::{bool2str, dec_str, spec_bool2str, u64_to_string};
use crate::types::{Discussion, DiscussionReply, DiscussionSubReply, File, Homework, Notification, SemesterCourses};
use crate::urls::{file_download_str, FILE_DOWNLOAD};

verus! {

/// The spec-level picture of one content node: resolved bytes, or a
/// remote address held by a session.
pub enum ContentModel {
    Data(Seq<u8>),
    Url(Seq<char>, u64),
}

/// Whether a content node is the one the model describes.
pub open spec fn content_matches(c: Content, m: ContentModel) -> bool {
    match m {
        ContentModel::Data(b) => c matches Content::Data(x) && x@ == b,
        ContentModel::Url(u, cl) => c matches Content::Url(s, k) && s@ == u && k == cl,
    }
}

/// One detail field holding a text's bytes.
pub open spec fn text_field(label: Seq<char>, text: String) -> (Seq<char>, ContentModel) {
    (label, ContentModel::Data(encode_utf8(text@)))
}

/// An optional detail field: present exactly when the record carries it.
pub open spec fn opt_field(label: Seq<char>, o: Option<String>) -> Seq<
    (Seq<char>, ContentModel),
> {
    match o {
        Some(s) => seq![text_field(label, s)],
        None => seq![],
    }
}

/// An optional attachment: a labelled name and its unresolved address.
pub open spec fn attach_field(
    prefix: Seq<char>,
    o: Option<(String, String)>,
    client: u64,
) -> Seq<(Seq<char>, ContentModel)> {
    match o {
        Some(p) => seq![((prefix + p.0@), ContentModel::Url(p.1@, client))],
        None => seq![],
    }
}

/// The detail fields of one homework, in listing order: the three fixed
/// texts, the optional submission and grading texts, then up to three
/// attachments.
pub open spec fn homework_fields(h: Homework, client: u64) -> Seq<(Seq<char>, ContentModel)> {
    seq![
        text_field("描述"@, h.detail.description),
        text_field("发布时间"@, h.assign_time),
        text_field("截止时间"@, h.deadline),
    ] + opt_field("提交时间"@, h.submit_time) + opt_field("提交内容"@, h.submit_content)
        + opt_field("成绩"@, h.grade) + opt_field("批阅时间"@, h.grade_time) + opt_field(
        "批阅老师"@,
        h.grader_name,
    ) + opt_field("评语"@, h.grade_content) + attach_field(
        "附件："@,
        h.detail.attachment_name_url,
        client,
    ) + attach_field("提交附件："@, h.detail.submit_attachment_name_url, client)
        + attach_field("评语附件："@, h.detail.grade_attachment_name_url, client)
}

/// A notification's attachment field, present when both its name and its
/// address are known.
pub open spec fn notification_attach(n: Notification, client: u64) -> Seq<
    (Seq<char>, ContentModel),
> {
    match (n.attachment_name, n.attachment_url) {
        (Some(name), Some(url)) => seq![
            (("通知附件："@ + name@), ContentModel::Url(url@, client)),
        ],
        _ => seq![],
    }
}

/// The detail fields of one notification: its texts, the two markers, and
/// the attachment when both its name and address are known.
pub open spec fn notification_fields(n: Notification, client: u64) -> Seq<
    (Seq<char>, ContentModel),
> {
    seq![
        text_field("内容"@, n.content),
        text_field("发布时间"@, n.publish_time),
        text_field("发布老师"@, n.publisher),
        ("已读"@, ContentModel::Data(encode_utf8(spec_bool2str(n.read)))),
        ("重要"@, ContentModel::Data(encode_utf8(spec_bool2str(n.important)))),
    ] + notification_attach(n, client)
}

/// The detail fields of one file: its texts and counters, then the file
/// itself under its title and type, as an unresolved download.
pub open spec fn file_fields(f: File, client: u64) -> Seq<(Seq<char>, ContentModel)> {
    seq![
        text_field("描述"@, f.description),
        text_field("大小"@, f.size),
        text_field("上传时间"@, f.upload_time),
        ("已读"@, ContentModel::Data(encode_utf8(spec_bool2str(!f.new)))),
        ("重要"@, ContentModel::Data(encode_utf8(spec_bool2str(f.important)))),
        ("访问次数"@, ContentModel::Data(encode_utf8(dec_str(f.visit_count as int)))),
        ("下载次数"@, ContentModel::Data(encode_utf8(dec_str(f.download_count as int)))),
        ((f.title@ + "."@ + f.file_type@), ContentModel::Url(file_download_str(f.id@), client)),
    ]
}

/// The builders' running relation: the map and content vectors describe
/// the fields built so far, with the map's values counting up from
/// `i + off`.
pub open spec fn builder_ok(
    m: Seq<(String, u64)>,
    c: Seq<Content>,
    built: Seq<(Seq<char>, ContentModel)>,
    i: int,
    off: int,
) -> bool {
    &&& c.len() == built.len()
    &&& m.len() == off + c.len()
    &&& forall|k: int|
        0 <= k < built.len() ==> (#[trigger] m[off + k]).0@ == built[k].0 && m[off + k].1 == i
            + off + k && content_matches(c[k], built[k].1)
}

/// One build step: a map entry and a content node for the next field keep
/// the builders' relation.
pub proof fn lemma_builder_step(
    m: Seq<(String, u64)>,
    c: Seq<Content>,
    built: Seq<(Seq<char>, ContentModel)>,
    i: int,
    off: int,
    f: (Seq<char>, ContentModel),
)
    requires
        0 <= off,
        m.len() >= 1,
        c.len() >= 1,
        builder_ok(m.drop_last(), c.drop_last(), built, i, off),
        m.last().0@ == f.0,
        m.last().1 == i + off + (c.len() - 1),
        content_matches(c.last(), f.1),
    ensures
        builder_ok(m, c, built + seq![f], i, off),
{
    let b1 = built + seq![f];
    assert(c.len() == b1.len());
    assert(m.len() == off + c.len());
    assert forall|k: int| 0 <= k < b1.len() implies (#[trigger] m[off + k]).0@ == b1[k].0 && m[off
        + k].1 == i + off + k && content_matches(c[k], b1[k].1) by {
        if k < built.len() {
            assert(m[off + k] == m.drop_last()[off + k]);
            assert(c[k] == c.drop_last()[k]);
            assert(b1[k] == built[k]);
        } else {
            assert(m[off + k] == m.last());
            assert(c[k] == c.last());
            assert(b1[k] == f);
        }
    }
}


pub proof fn lemma_opt_field_len(label: Seq<char>, o: Option<String>)
    ensures
        opt_field(label, o).len() <= 1,
{
    if o is Some {
        assert(opt_field(label, o) =~= seq![text_field(label, o->0)]);
    }
}

pub proof fn lemma_attach_field_len(prefix: Seq<char>, o: Option<(String, String)>, client: u64)
    ensures
        attach_field(prefix, o, client).len() <= 1,
{
    if o is Some {
        assert(attach_field(prefix, o, client) =~= seq![
            ((prefix + (o->0).0@), ContentModel::Url((o->0).1@, client)),
        ]);
    }
}

/// A homework's detail has its three fixed fields and at most nine more.
pub proof fn lemma_homework_fields_len(h: Homework, client: u64)
    ensures
        3 <= homework_fields(h, client).len() <= 12,
{
    lemma_opt_field_len("提交时间"@, h.submit_time);
    lemma_opt_field_len("提交内容"@, h.submit_content);
    lemma_opt_field_len("成绩"@, h.grade);
    lemma_opt_field_len("批阅时间"@, h.grade_time);
    lemma_opt_field_len("批阅老师"@, h.grader_name);
    lemma_opt_field_len("评语"@, h.grade_content);
    lemma_attach_field_len("附件："@, h.detail.attachment_name_url, client);
    lemma_attach_field_len("提交附件："@, h.detail.submit_attachment_name_url, client);
    lemma_attach_field_len("评语附件："@, h.detail.grade_attachment_name_url, client);
}

/// A notification's detail has its five fixed fields and at most one more.
pub proof fn lemma_notification_fields_len(n: Notification, client: u64)
    ensures
        5 <= notification_fields(n, client).len() <= 6,
{
    assert(notification_attach(n, client).len() <= 1) by {
        match (n.attachment_name, n.attachment_url) {
            (Some(name), Some(url)) => {
                assert(notification_attach(n, client) =~= seq![
                    (("通知附件："@ + name@), ContentModel::Url(url@, client)),
                ]);
            },
            _ => {},
        }
    }
}

/// Turns a text into the bytes a content node stores.
fn text_bytes(s: &String) -> (r: Content)
    ensures
        content_matches(r, ContentModel::Data(encode_utf8(s@))),
{
    Content::Data(s.as_str().as_bytes_vec())
}


/// Builds one optional text field: a map entry and content node exactly
/// when the record carries the text.
fn push_opt_field(
    m: &mut NameMap,
    c: &mut Vec<Content>,
    label: &str,
    o: &Option<String>,
    i: u64,
    off: u64,
    Ghost(b0): Ghost<Seq<(Seq<char>, ContentModel)>>,
)
    requires
        builder_ok(old(m)@, old(c)@, b0, i as int, off as int),
        i + off + old(c)@.len() < u64::MAX,
    ensures
        builder_ok(final(m)@, final(c)@, b0 + opt_field(label@, *o), i as int, off as int),
        final(c)@.len() == old(c)@.len() + opt_field(label@, *o).len(),
        forall|k: int| 0 <= k < old(m)@.len() ==> final(m)@[k] == old(m)@[k],
{
    let ghost m0 = m@;
    let ghost c0 = c@;
    match o {
        Some(v) => {
            m.push((label.to_owned(), i + off + c.len() as u64));
            c.push(text_bytes(v));
            proof {
                assert(m@.drop_last() =~= m0);
                assert(c@.drop_last() =~= c0);
                lemma_builder_step(m@, c@, b0, i as int, off as int, text_field(label@, o->0));
                assert(b0 + opt_field(label@, *o) =~= b0 + seq![text_field(label@, o->0)]);
            }
        },
        None => {
            proof {
                assert(b0 + opt_field(label@, *o) =~= b0);
            }
        },
    }
}

/// Builds one optional attachment field: a labelled name mapped to an
/// unresolved address, exactly when the record carries the attachment.
fn push_attach_field(
    m: &mut NameMap,
    c: &mut Vec<Content>,
    prefix: &str,
    o: &Option<(String, String)>,
    client: u64,
    i: u64,
    off: u64,
    Ghost(b0): Ghost<Seq<(Seq<char>, ContentModel)>>,
)
    requires
        builder_ok(old(m)@, old(c)@, b0, i as int, off as int),
        i + off + old(c)@.len() < u64::MAX,
    ensures
        builder_ok(
            final(m)@,
            final(c)@,
            b0 + attach_field(prefix@, *o, client),
            i as int,
            off as int,
        ),
        final(c)@.len() == old(c)@.len() + attach_field(prefix@, *o, client).len(),
        forall|k: int| 0 <= k < old(m)@.len() ==> final(m)@[k] == old(m)@[k],
{
    let ghost m0 = m@;
    let ghost c0 = c@;
    match o {
        Some(p) => {
            let mut nm = prefix.to_owned();
            nm.append(p.0.as_str());
            m.push((nm, i + off + c.len() as u64));
            c.push(Content::Url(p.1.clone(), client));
            proof {
                assert(m@.drop_last() =~= m0);
                assert(c@.drop_last() =~= c0);
                lemma_builder_step(
                    m@,
                    c@,
                    b0,
                    i as int,
                    off as int,
                    ((prefix@ + (o->0).0@), ContentModel::Url((o->0).1@, client)),
                );
                assert(b0 + attach_field(prefix@, *o, client) =~= b0 + seq![
                    ((prefix@ + (o->0).0@), ContentModel::Url((o->0).1@, client)),
                ]);
            }
        },
        None => {
            proof {
                assert(b0 + attach_field(prefix@, *o, client) =~= b0);
            }
        },
    }
}

/// The name-map entries and content nodes of one homework's detail, with
/// inode numbers counting up from `i`.  Unless `content_only`, the map
/// leads with the submit and refresh actions at `i` and `i + 1` and the
/// detail follows; with `content_only` the detail alone starts at `i`.
#[verifier::rlimit(100)]
pub fn homework_content(h: &Homework, i: u64, client: u64, content_only: bool) -> (res: (
    NameMap,
    Vec<Content>,
))
    requires
        i + 14 <= u64::MAX,
    ensures
        ({
            let fields = homework_fields(*h, client);
            let off: int = if content_only {
                0
            } else {
                2
            };
            &&& fields.len() <= 12
            &&& res.1@.len() == fields.len()
            &&& res.0@.len() == off + fields.len()
            &&& !content_only ==> res.0@[0].0@ == "提交作业"@ && res.0@[0].1 == i
                && res.0@[1].0@ == "刷新"@ && res.0@[1].1 == i + 1
            &&& builder_ok(res.0@, res.1@, fields, i as int, off)
        }),
{
    let ghost fields = homework_fields(*h, client);
    let off: u64 = if content_only {
        0
    } else {
        2
    };
    let mut m: NameMap = Vec::new();
    let mut c: Vec<Content> = Vec::new();
    if !content_only {
        m.push(("提交作业".to_owned(), i));
        m.push(("刷新".to_owned(), i + 1));
    }
    let ghost mut built: Seq<(Seq<char>, ContentModel)> = seq![
        text_field("描述"@, h.detail.description),
        text_field("发布时间"@, h.assign_time),
        text_field("截止时间"@, h.deadline),
    ];
    m.push(("描述".to_owned(), i + off));
    c.push(text_bytes(&h.detail.description));
    m.push(("发布时间".to_owned(), i + off + 1));
    c.push(text_bytes(&h.assign_time));
    m.push(("截止时间".to_owned(), i + off + 2));
    c.push(text_bytes(&h.deadline));
    proof {
        assert(builder_ok(m@, c@, built, i as int, off as int));
    }
    push_opt_field(&mut m, &mut c, "提交时间", &h.submit_time, i, off, Ghost(built));
    proof {
        built = built + opt_field("提交时间"@, h.submit_time);
    }
    push_opt_field(&mut m, &mut c, "提交内容", &h.submit_content, i, off, Ghost(built));
    proof {
        built = built + opt_field("提交内容"@, h.submit_content);
    }
    push_opt_field(&mut m, &mut c, "成绩", &h.grade, i, off, Ghost(built));
    proof {
        built = built + opt_field("成绩"@, h.grade);
    }
    push_opt_field(&mut m, &mut c, "批阅时间", &h.grade_time, i, off, Ghost(built));
    proof {
        built = built + opt_field("批阅时间"@, h.grade_time);
    }
    push_opt_field(&mut m, &mut c, "批阅老师", &h.grader_name, i, off, Ghost(built));
    proof {
        built = built + opt_field("批阅老师"@, h.grader_name);
    }
    push_opt_field(&mut m, &mut c, "评语", &h.grade_content, i, off, Ghost(built));
    proof {
        built = built + opt_field("评语"@, h.grade_content);
    }
    push_attach_field(&mut m, &mut c, "附件：", &h.detail.attachment_name_url, client, i, off, Ghost(built));
    proof {
        built = built + attach_field("附件："@, h.detail.attachment_name_url, client);
    }
    push_attach_field(&mut m, &mut c, "提交附件：", &h.detail.submit_attachment_name_url, client, i, off, Ghost(built));
    proof {
        built = built + attach_field("提交附件："@, h.detail.submit_attachment_name_url, client);
    }
    push_attach_field(&mut m, &mut c, "评语附件：", &h.detail.grade_attachment_name_url, client, i, off, Ghost(built));
    proof {
        built = built + attach_field("评语附件："@, h.detail.grade_attachment_name_url, client);
    }
    proof {
        lemma_homework_fields_len(*h, client);
        assert(built == fields);
    }
    (m, c)
}

/// The name-map entries and content nodes of one notification's detail,
/// with inode numbers counting up from `i`.
pub fn notification_content(n: &Notification, i: u64, client: u64) -> (res: (
    NameMap,
    Vec<Content>,
))
    requires
        i + 14 <= u64::MAX,
    ensures
        ({
            let fields = notification_fields(*n, client);
            &&& fields.len() <= 6
            &&& res.1@.len() == fields.len()
            &&& res.0@.len() == fields.len()
            &&& builder_ok(res.0@, res.1@, fields, i as int, 0)
        }),
{
    let ghost fields = notification_fields(*n, client);
    let mut m: NameMap = Vec::new();
    let mut c: Vec<Content> = Vec::new();
    let ghost mut built: Seq<(Seq<char>, ContentModel)> = seq![
        text_field("内容"@, n.content),
        text_field("发布时间"@, n.publish_time),
        text_field("发布老师"@, n.publisher),
        ("已读"@, ContentModel::Data(encode_utf8(spec_bool2str(n.read)))),
        ("重要"@, ContentModel::Data(encode_utf8(spec_bool2str(n.important)))),
    ];
    m.push(("内容".to_owned(), i));
    c.push(text_bytes(&n.content));
    m.push(("发布时间".to_owned(), i + 1));
    c.push(text_bytes(&n.publish_time));
    m.push(("发布老师".to_owned(), i + 2));
    c.push(text_bytes(&n.publisher));
    m.push(("已读".to_owned(), i + 3));
    c.push(Content::Data(bool2str(n.read).as_bytes_vec()));
    m.push(("重要".to_owned(), i + 4));
    c.push(Content::Data(bool2str(n.important).as_bytes_vec()));
    proof {
        assert(builder_ok(m@, c@, built, i as int, 0));
    }
    match (&n.attachment_name, &n.attachment_url) {
        (Some(name), Some(url)) => {
            let mut nm = "通知附件：".to_owned();
            nm.append(name.as_str());
            m.push((nm, i + 5));
            c.push(Content::Url(url.clone(), client));
        },
        _ => {},
    }
    proof {
        built = built + notification_attach(*n, client);
        assert(builder_ok(m@, c@, built, i as int, 0));
        assert(built == fields);
    }
    (m, c)
}

/// The name-map entries and content nodes of one file's detail, with
/// inode numbers counting up from `i`.
pub fn file_content(f: &File, i: u64, client: u64) -> (res: (NameMap, Vec<Content>))
    requires
        i + 14 <= u64::MAX,
    ensures
        ({
            let fields = file_fields(*f, client);
            &&& fields.len() == 8
            &&& res.1@.len() == fields.len()
            &&& res.0@.len() == fields.len()
            &&& builder_ok(res.0@, res.1@, fields, i as int, 0)
        }),
{
    let ghost fields = file_fields(*f, client);
    let mut m: NameMap = Vec::new();
    let mut c: Vec<Content> = Vec::new();
    m.push(("描述".to_owned(), i));
    c.push(text_bytes(&f.description));
    m.push(("大小".to_owned(), i + 1));
    c.push(text_bytes(&f.size));
    m.push(("上传时间".to_owned(), i + 2));
    c.push(text_bytes(&f.upload_time));
    m.push(("已读".to_owned(), i + 3));
    c.push(Content::Data(bool2str(!f.new).as_bytes_vec()));
    m.push(("重要".to_owned(), i + 4));
    c.push(Content::Data(bool2str(f.important).as_bytes_vec()));
    let visits = u64_to_string(f.visit_count as u64);
    m.push(("访问次数".to_owned(), i + 5));
    c.push(text_bytes(&visits));
    let downloads = u64_to_string(f.download_count as u64);
    m.push(("下载次数".to_owned(), i + 6));
    c.push(text_bytes(&downloads));
    let mut nm = f.title.clone();
    nm.append(".");
    nm.append(f.file_type.as_str());
    let url = FILE_DOWNLOAD(f.id.as_str());
    m.push((nm, i + 7));
    c.push(Content::Url(url, client));
    proof {
        assert(builder_ok(m@, c@, fields, i as int, 0));
    }
    (m, c)
}

/// The sum of a measure over a sequence.
pub open spec fn seq_sum<T>(s: Seq<T>, f: spec_fn(T) -> int) -> int
    decreases s.len(),
{
    if s.len() == 0 {
        0
    } else {
        f(s[0]) + seq_sum(s.drop_first(), f)
    }
}

pub proof fn lemma_seq_sum_take<T>(s: Seq<T>, f: spec_fn(T) -> int, k: int)
    requires
        0 <= k < s.len(),
    ensures
        seq_sum(s.take(k + 1), f) == seq_sum(s.take(k), f) + f(s[k]),
    decreases k,
{
    if k == 0 {
        assert(s.take(1) =~= seq![s[0]]);
        assert(s.take(1).drop_first() =~= s.take(0));
        assert(s.take(0).len() == 0);
    } else {
        lemma_seq_sum_take(s.drop_first(), f, k - 1);
        assert(s.take(k + 1).drop_first() =~= s.drop_first().take(k));
        assert(s.take(k).drop_first() =~= s.drop_first().take(k - 1));
        assert(s.take(k + 1)[0] == s[0]);
        assert(s.take(k)[0] == s[0]);
        assert(s.drop_first()[k - 1] == s[k]);
    }
}

pub proof fn lemma_seq_sum_bounds<T>(s: Seq<T>, f: spec_fn(T) -> int, lo: int, hi: int)
    requires
        forall|k: int| 0 <= k < s.len() ==> lo <= #[trigger] f(s[k]) <= hi,
    ensures
        lo * s.len() <= seq_sum(s, f) <= hi * s.len(),
    decreases s.len(),
{
    if s.len() > 0 {
        assert forall|k: int| 0 <= k < s.drop_first().len() implies lo <= #[trigger] f(
            s.drop_first()[k],
        ) <= hi by {
            assert(s.drop_first()[k] == s[k + 1]);
        }
        lemma_seq_sum_bounds(s.drop_first(), f, lo, hi);
        assert(lo * s.len() == lo * (s.len() - 1) + lo) by (nonlinear_arith);
        assert(hi * s.len() == hi * (s.len() - 1) + hi) by (nonlinear_arith);
    }
}


pub proof fn lemma_seq_sum_take_monotone<T>(s: Seq<T>, f: spec_fn(T) -> int, a: int, b: int)
    requires
        0 <= a <= b <= s.len(),
        forall|k: int| 0 <= k < s.len() ==> #[trigger] f(s[k]) >= 0,
    ensures
        seq_sum(s.take(a), f) <= seq_sum(s.take(b), f),
    decreases b - a,
{
    if a < b {
        lemma_seq_sum_take(s, f, b - 1);
        lemma_seq_sum_take_monotone(s, f, a, b - 1);
    }
}

/// How many arena slots one homework's subtree takes: the item, its two
/// actions, and one content node per detail field.
pub open spec fn hw_measure(client: u64) -> spec_fn(Homework) -> int {
    |h: Homework| 3 + homework_fields(h, client).len() as int
}

/// How many arena slots one notification's subtree takes.
pub open spec fn nf_measure(client: u64) -> spec_fn(Notification) -> int {
    |n: Notification| 1 + notification_fields(n, client).len() as int
}

/// How many arena slots one file's subtree takes.
pub open spec fn fl_measure(client: u64) -> spec_fn(File) -> int {
    |f: File| 1 + file_fields(f, client).len() as int
}

/// One appended homework subtree: the item with its action entries first,
/// the submit and refresh actions right after it, then the detail
/// contents in field order.
pub open spec fn is_homework_item(nodes: Seq<InoInfo>, b: int, h: Homework, client: u64) -> bool {
    let f = homework_fields(h, client);
    &&& 0 <= b
    &&& b + 3 + f.len() <= nodes.len()
    &&& nodes[b] matches InoInfo::Item(m) && m@.len() == 2 + f.len() && m@[0].0@ == "提交作业"@
        && m@[0].1 == b + 1 && m@[1].0@ == "刷新"@ && m@[1].1 == b + 2 && (forall|k: int|
        0 <= k < f.len() ==> (#[trigger] m@[2 + k]).0@ == f[k].0 && m@[2 + k].1 == b + 3 + k)
    &&& nodes[b + 1] matches InoInfo::SubmitHomework { student_homework, client: c1 }
        && student_homework@ == h.student_homework_id@ && c1 == client
    &&& nodes[b + 2] matches InoInfo::Refresh { parent, client: c2, info } && parent == b && c2
        == client && (info matches RefreshInfo::Homework { course, homework } && course@
        == h.course_id@ && homework@ == h.id@)
    &&& forall|k: int|
        0 <= k < f.len() ==> ((#[trigger] nodes[b + 3 + k]) matches InoInfo::Content(c)
            && content_matches(c, f[k].1))
}

/// One appended notification or file subtree: the item, then its detail
/// contents in field order.
pub open spec fn is_plain_item(
    nodes: Seq<InoInfo>,
    b: int,
    f: Seq<(Seq<char>, ContentModel)>,
) -> bool {
    &&& 0 <= b
    &&& b + 1 + f.len() <= nodes.len()
    &&& nodes[b] matches InoInfo::Item(m) && m@.len() == f.len() && (forall|k: int|
        0 <= k < f.len() ==> (#[trigger] m@[k]).0@ == f[k].0 && m@[k].1 == b + 1 + k)
    &&& forall|k: int|
        0 <= k < f.len() ==> ((#[trigger] nodes[b + 1 + k]) matches InoInfo::Content(c)
            && content_matches(c, f[k].1))
}

/// One appended discussion subtree: the thread with its refresh sentinel
/// as the sole reply entry, and the refresh action right after it.
pub open spec fn is_discussion_block(
    nodes: Seq<InoInfo>,
    b: int,
    course_id: String,
    d: Discussion,
    client: u64,
) -> bool {
    &&& 0 <= b
    &&& b + 2 <= nodes.len()
    &&& nodes[b] matches InoInfo::Discussion { course, discussion, board, client: c1, replies }
        && course@ == course_id@ && discussion@ == d.id@ && board@ == d.board_id@ && c1 == client
        && replies@.len() == 1 && replies@[0].0@ == "刷新"@ && replies@[0].1 == b + 1
    &&& nodes[b + 1] matches InoInfo::Refresh { parent, client: c2, info } && parent == b && c2
        == client && info is Discussion
}

impl crate::fs::LearnFS {
    /// Appends the content nodes of one item, in order.
    fn push_contents(&mut self, cs: Vec<Content>)
        ensures
            final(self).inos@.len() == old(self).inos@.len() + cs@.len(),
            forall|k: int|
                0 <= k < old(self).inos@.len() ==> final(self).inos@[k] == old(self).inos@[k],
            forall|k: int|
                0 <= k < cs@.len() ==> final(self).inos@[old(self).inos@.len() + k]
                    == InoInfo::Content(cs@[k]),
    {
        let ghost orig = cs@;
        let ghost base = self.inos@.len();
        let mut cs = cs;
        let n: usize = cs.len();
        let mut j: usize = 0;
        while j < n
            invariant
                cs@ =~= orig.skip(j as int),
                n == orig.len(),
                j <= n,
                self.inos@.len() == base + j,
                forall|k: int| 0 <= k < base ==> self.inos@[k] == old(self).inos@[k],
                base == old(self).inos@.len(),
                forall|k: int|
                    0 <= k < j ==> self.inos@[base + k] == InoInfo::Content(orig[k]),
            decreases n - j,
        {
            let c0 = cs.remove(0);
            proof {
                assert(c0 == orig[j as int]);
                assert(cs@ =~= orig.skip(j + 1));
            }
            self.inos.push(InoInfo::Content(c0));
            j = j + 1;
        }
    }

    /// Appends one homework's subtree and answers its item inode.
    pub(crate) fn push_homework_item(&mut self, h: &Homework, client: u64) -> (b: u64)
        requires
            old(self).wf(),
            old(self).inos@.len() + 16 <= u64::MAX,
        ensures
            final(self).wf(),
            b == old(self).inos@.len(),
            final(self).inos@.len() == old(self).inos@.len() + hw_measure(client)(*h),
            forall|k: int|
                0 <= k < old(self).inos@.len() ==> final(self).inos@[k] == old(self).inos@[k],
            is_homework_item(final(self).inos@, b as int, *h, client),
    {
        let ghost old_nodes = self.inos@;
        let b = self.inos.len() as u64;
        proof {
            lemma_homework_fields_len(*h, client);
        }
        let ghost fields = homework_fields(*h, client);
        let (m, cs) = homework_content(h, b + 1, client, false);
        let ghost m0 = m@;
        let ghost cs0 = cs@;
        self.inos.push(InoInfo::Item(m));
        self.inos.push(
            InoInfo::SubmitHomework { student_homework: h.student_homework_id.clone(), client },
        );
        self.inos.push(
            InoInfo::Refresh {
                parent: b,
                client,
                info: RefreshInfo::Homework {
                    course: h.course_id.clone(),
                    homework: h.id.clone(),
                },
            },
        );
        let ghost mid = self.inos@;
        self.push_contents(cs);
        proof {
            let new_nodes = self.inos@;
            assert(new_nodes.len() == b + 3 + fields.len());
            lemma_arena_extend(old_nodes, new_nodes);
            let item_map = new_nodes[b as int]->Item_0;
            assert(item_map@ == m0);
            assert(builder_ok(item_map@, cs0, fields, b as int + 1, 2));
            assert forall|k: int|
                0 <= k < fields.len() implies ((#[trigger] new_nodes[b + 3 + k]) matches
            InoInfo::Content(c) && content_matches(c, fields[k].1)) by {
                assert(new_nodes[mid.len() + k] == InoInfo::Content(cs0[k]));
                assert(mid.len() == b + 3);
                assert(item_map@[2 + k].1 == (b as int + 1) + 2 + k);
                assert(content_matches(cs0[k], fields[k].1));
            }
            assert(is_homework_item(new_nodes, b as int, *h, client));
            assert forall|i: int| 0 <= i < new_nodes.len() implies #[trigger] node_ok(
                new_nodes,
                i,
            ) by {
                if i < old_nodes.len() {
                } else if i == b {
                    assert forall|j: int|
                        0 <= j < item_map@.len() implies (#[trigger] item_map@[j]).1
                        < new_nodes.len() by {
                        if j >= 2 {
                            assert(item_map@[2 + (j - 2)].1 == (b as int + 1) + 2 + (j - 2));
                        }
                    }
                    assert(map_ok(item_map@, new_nodes.len() as int));
                } else if i == b + 1 || i == b + 2 {
                } else {
                    assert(new_nodes[mid.len() + (i - (b + 3))] == InoInfo::Content(
                        cs0[i - (b + 3)],
                    ));
                }
            }
        }
        b
    }

    /// Appends one notification's or file's subtree and answers its item
    /// inode.  The map and contents arrive prebuilt against the fields and
    /// against inode numbers counting up from the next free slot plus one.
    fn push_plain_item(
        &mut self,
        m: NameMap,
        cs: Vec<Content>,
        Ghost(fields): Ghost<Seq<(Seq<char>, ContentModel)>>,
    ) -> (b: u64)
        requires
            old(self).wf(),
            builder_ok(m@, cs@, fields, old(self).inos@.len() + 1int, 0),
            old(self).inos@.len() + 1 + fields.len() <= u64::MAX,
        ensures
            final(self).wf(),
            b == old(self).inos@.len(),
            final(self).inos@.len() == old(self).inos@.len() + 1 + fields.len(),
            forall|k: int|
                0 <= k < old(self).inos@.len() ==> final(self).inos@[k] == old(self).inos@[k],
            is_plain_item(final(self).inos@, b as int, fields),
    {
        let ghost old_nodes = self.inos@;
        let b = self.inos.len() as u64;
        let ghost m0 = m@;
        let ghost cs0 = cs@;
        self.inos.push(InoInfo::Item(m));
        let ghost mid = self.inos@;
        self.push_contents(cs);
        proof {
            let new_nodes = self.inos@;
            lemma_arena_extend(old_nodes, new_nodes);
            let item_map = new_nodes[b as int]->Item_0;
            assert(item_map@ == m0);
            assert forall|k: int|
                0 <= k < fields.len() implies (#[trigger] item_map@[k]).0@ == fields[k].0
                && item_map@[k].1 == b + 1 + k by {
                assert(item_map@[0 + k].0@ == fields[k].0);
                assert(item_map@[0 + k].1 == (b as int + 1) + 0 + k);
            }
            assert forall|k: int|
                0 <= k < fields.len() implies ((#[trigger] new_nodes[b + 1 + k]) matches
            InoInfo::Content(c) && content_matches(c, fields[k].1)) by {
                assert(new_nodes[mid.len() + k] == InoInfo::Content(cs0[k]));
                assert(mid.len() == b + 1);
                assert(item_map@[0 + k].1 == (b as int + 1) + 0 + k);
                assert(content_matches(cs0[k], fields[k].1));
            }
            assert(is_plain_item(new_nodes, b as int, fields));
            assert forall|i: int| 0 <= i < new_nodes.len() implies #[trigger] node_ok(
                new_nodes,
                i,
            ) by {
                if i < old_nodes.len() {
                } else if i == b {
                    assert forall|j: int|
                        0 <= j < item_map@.len() implies (#[trigger] item_map@[j]).1
                        < new_nodes.len() by {
                        assert(item_map@[0 + j].1 == (b as int + 1) + 0 + j);
                    }
                    assert(map_ok(item_map@, new_nodes.len() as int));
                } else {
                    assert(new_nodes[mid.len() + (i - (b + 1))] == InoInfo::Content(
                        cs0[i - (b + 1)],
                    ));
                }
            }
        }
        b
    }

    /// Appends one discussion's subtree and answers its thread inode.
    pub(crate) fn push_discussion_block(&mut self, course_id: &String, d: &Discussion, client: u64) -> (b:
        u64)
        requires
            old(self).wf(),
            old(self).inos@.len() + 2 <= u64::MAX,
        ensures
            final(self).wf(),
            b == old(self).inos@.len(),
            final(self).inos@.len() == old(self).inos@.len() + 2,
            forall|k: int|
                0 <= k < old(self).inos@.len() ==> final(self).inos@[k] == old(self).inos@[k],
            is_discussion_block(final(self).inos@, b as int, *course_id, *d, client),
    {
        let ghost old_nodes = self.inos@;
        let b = self.inos.len() as u64;
        let mut replies: NameMap = Vec::new();
        replies.push(("刷新".to_owned(), b + 1));
        self.inos.push(
            InoInfo::Discussion {
                course: course_id.clone(),
                discussion: d.id.clone(),
                board: d.board_id.clone(),
                client,
                replies,
            },
        );
        self.inos.push(InoInfo::Refresh { parent: b, client, info: RefreshInfo::Discussion });
        proof {
            let new_nodes = self.inos@;
            lemma_arena_extend(old_nodes, new_nodes);
            assert(is_discussion_block(new_nodes, b as int, *course_id, *d, client));
            assert forall|i: int| 0 <= i < new_nodes.len() implies #[trigger] node_ok(
                new_nodes,
                i,
            ) by {
                if i < old_nodes.len() {
                } else if i == b {
                    assert(map_ok(new_nodes[i]->Discussion_replies@, new_nodes.len() as int));
                }
            }
        }
        b
    }
}


/// A subtree already in the arena survives appends and edits outside it.
pub proof fn lemma_homework_item_preserved(
    n1: Seq<InoInfo>,
    n2: Seq<InoInfo>,
    b: int,
    h: Homework,
    client: u64,
)
    requires
        is_homework_item(n1, b, h, client),
        n1.len() <= n2.len(),
        forall|i: int| b <= i < b + 3 + homework_fields(h, client).len() ==> n2[i] == n1[i],
    ensures
        is_homework_item(n2, b, h, client),
{
    let f = homework_fields(h, client);
    assert(n2[b] == n1[b]);
    assert(n2[b + 1] == n1[b + 1]);
    assert(n2[b + 2] == n1[b + 2]);
    assert forall|k: int|
        0 <= k < f.len() implies ((#[trigger] n2[b + 3 + k]) matches InoInfo::Content(c)
        && content_matches(c, f[k].1)) by {
        assert(n2[b + 3 + k] == n1[b + 3 + k]);
    }
}

pub proof fn lemma_plain_item_preserved(
    n1: Seq<InoInfo>,
    n2: Seq<InoInfo>,
    b: int,
    f: Seq<(Seq<char>, ContentModel)>,
)
    requires
        is_plain_item(n1, b, f),
        n1.len() <= n2.len(),
        forall|i: int| b <= i < b + 1 + f.len() ==> n2[i] == n1[i],
    ensures
        is_plain_item(n2, b, f),
{
    assert(n2[b] == n1[b]);
    assert forall|k: int|
        0 <= k < f.len() implies ((#[trigger] n2[b + 1 + k]) matches InoInfo::Content(c)
        && content_matches(c, f[k].1)) by {
        assert(n2[b + 1 + k] == n1[b + 1 + k]);
    }
}

pub proof fn lemma_discussion_block_preserved(
    n1: Seq<InoInfo>,
    n2: Seq<InoInfo>,
    b: int,
    course_id: String,
    d: Discussion,
    client: u64,
)
    requires
        is_discussion_block(n1, b, course_id, d, client),
        n1.len() <= n2.len(),
        forall|i: int| b <= i < b + 2 ==> n2[i] == n1[i],
    ensures
        is_discussion_block(n2, b, course_id, d, client),
{
    assert(n2[b] == n1[b]);
    assert(n2[b + 1] == n1[b + 1]);
}

/// Where the subtree of the `k`-th of the appended homeworks starts.
pub open spec fn hw_pos(base: int, hs: Seq<Homework>, k: int, client: u64) -> int {
    base + seq_sum(hs.take(k), hw_measure(client))
}

/// What appending the homework list does: the category list gains one
/// entry per homework, in order, each naming the subtree the running
/// total places right where it was appended; nothing else changes.
pub open spec fn homeworks_added(
    old_nodes: Seq<InoInfo>,
    new_nodes: Seq<InoInfo>,
    list_ino: u64,
    hs: Seq<Homework>,
    client: u64,
) -> bool {
    let base = old_nodes.len() as int;
    let l0 = old_nodes[list_ino as int]->ItemList_0@;
    let l1 = new_nodes[list_ino as int]->ItemList_0@;
    &&& new_nodes.len() == base + seq_sum(hs, hw_measure(client))
    &&& forall|j: int| 0 <= j < base && j != list_ino ==> new_nodes[j] == old_nodes[j]
    &&& new_nodes[list_ino as int] is ItemList
    &&& l1.len() == l0.len() + hs.len()
    &&& forall|k: int| 0 <= k < l0.len() ==> l1[k] == l0[k]
    &&& forall|k: int|
        0 <= k < hs.len() ==> (#[trigger] l1[l0.len() + k]).0@ == hs[k].title@ && l1[l0.len()
            + k].1 == hw_pos(base, hs, k, client)
    &&& forall|k: int|
        0 <= k < hs.len() ==> is_homework_item(
            new_nodes,
            hw_pos(base, hs, k, client),
            hs[k],
            client,
        )
}

impl crate::fs::LearnFS {
    /// Appends every homework's subtree and links each into the category
    /// list, in list order.
    #[verifier::rlimit(100)]
    #[verifier::spinoff_prover]
    pub(crate) fn add_homeworks(&mut self, list_ino: u64, hs: &Vec<Homework>, client: u64)
        requires
            old(self).wf(),
            list_ino < old(self).inos@.len(),
            old(self).inos@[list_ino as int] is ItemList,
            old(self).inos@.len() + 16 * hs@.len() + 16 <= u64::MAX,
        ensures
            final(self).wf(),
            homeworks_added(old(self).inos@, final(self).inos@, list_ino, hs@, client),
    {
        let ghost old_nodes = self.inos@;
        let n = hs.len();
        let mut k: usize = 0;
        proof {
            assert(hs@.take(0) =~= Seq::<Homework>::empty());
        }
        while k < n
            invariant
                self.wf(),
                n == hs@.len(),
                k <= n,
                list_ino < old_nodes.len(),
                old_nodes[list_ino as int] is ItemList,
                old_nodes.len() + 16 * hs@.len() + 16 <= u64::MAX,
                self.inos@.len() == old_nodes.len() + seq_sum(
                    hs@.take(k as int),
                    hw_measure(client),
                ),
                0 <= seq_sum(hs@.take(k as int), hw_measure(client)) <= 16 * k,
                forall|j: int|
                    0 <= j < old_nodes.len() && j != list_ino ==> self.inos@[j] == old_nodes[j],
                self.inos@[list_ino as int] is ItemList,
                ({
                    let l0 = old_nodes[list_ino as int]->ItemList_0@;
                    let l1 = self.inos@[list_ino as int]->ItemList_0@;
                    &&& l1.len() == l0.len() + k
                    &&& forall|j: int| 0 <= j < l0.len() ==> l1[j] == l0[j]
                    &&& forall|j: int|
                        0 <= j < k ==> (#[trigger] l1[l0.len() + j]).0@ == hs@[j].title@
                            && l1[l0.len() + j].1 == hw_pos(
                            old_nodes.len() as int,
                            hs@,
                            j,
                            client,
                        )
                }),
                forall|j: int|
                    0 <= j < k ==> is_homework_item(
                        self.inos@,
                        hw_pos(old_nodes.len() as int, hs@, j, client),
                        hs@[j],
                        client,
                    ),
            decreases n - k,
        {
            let ghost prev = self.inos@;
            let h = &hs[k];
            proof {
                lemma_homework_fields_len(*h, client);
            }
            let b = self.push_homework_item(h, client);
            let ghost after_push = self.inos@;
            let title = h.title.clone();
            let nmut = self.node_mut(list_ino);
            match nmut {
                InoInfo::ItemList(m) => {
                    m.push((title, b));
                },
                _ => {},
            }
            proof {
                let cur = self.inos@;
                let l0 = old_nodes[list_ino as int]->ItemList_0@;
                let prev_list = after_push[list_ino as int]->ItemList_0@;
                assert(cur[list_ino as int] is ItemList);
                assert(cur[list_ino as int]->ItemList_0@ == prev_list.push((title, b)));
                // the arena stays well formed: the list only gained an
                // in-range entry
                assert(node_ok(after_push, list_ino as int));
                assert forall|j: int|
                    0 <= j < cur[list_ino as int]->ItemList_0@.len() implies (
                #[trigger] cur[list_ino as int]->ItemList_0@[j]).1 < cur.len() by {
                    if j < prev_list.len() {
                        assert(cur[list_ino as int]->ItemList_0@[j] == prev_list[j]);
                    }
                }
                assert(node_ok(cur, list_ino as int));
                lemma_arena_update(after_push, list_ino as int, cur[list_ino as int]);
                assert(cur == after_push.update(list_ino as int, cur[list_ino as int]));
                // the running total moves by this homework's block
                lemma_seq_sum_take(hs@, hw_measure(client), k as int);
                assert(hw_measure(client)(hs@[k as int]) == 3 + homework_fields(
                    hs@[k as int],
                    client,
                ).len());
                // this block sits where the total places it
                assert(b as int == hw_pos(old_nodes.len() as int, hs@, k as int, client));
                lemma_homework_item_preserved(after_push, cur, b as int, *h, client);
                // earlier blocks and entries are untouched
                assert forall|j: int|
                    0 <= j < k + 1 implies is_homework_item(
                    cur,
                    hw_pos(old_nodes.len() as int, hs@, j, client),
                    hs@[j],
                    client,
                ) by {
                    if j < k {
                        let pos = hw_pos(old_nodes.len() as int, hs@, j, client);
                        assert(is_homework_item(prev, pos, hs@[j], client));
                        assert forall|t: int|
                            0 <= t < hs@.take(j).len() implies 3 <= #[trigger] hw_measure(
                            client,
                        )(hs@.take(j)[t]) <= 15 by {
                            lemma_homework_fields_len(hs@.take(j)[t], client);
                        }
                        lemma_seq_sum_bounds(hs@.take(j), hw_measure(client), 3, 15);
                        assert forall|i: int|
                            pos <= i < pos + 3 + homework_fields(hs@[j], client).len() implies
                        cur[i] == prev[i] by {
                            assert(old_nodes.len() <= pos);
                            assert(pos + 3 + homework_fields(hs@[j], client).len()
                                <= prev.len());
                            assert(cur[i] == after_push[i]);
                        }
                        lemma_homework_item_preserved(prev, cur, pos, hs@[j], client);
                    }
                }
            }
            k = k + 1;
        }
        proof {
            assert(hs@.take(n as int) =~= hs@);
        }
    }
}


/// Where the subtree of the `k`-th of the appended notifications starts.
pub open spec fn nf_pos(base: int, ns: Seq<Notification>, k: int, client: u64) -> int {
    base + seq_sum(ns.take(k), nf_measure(client))
}

/// Where the subtree of the `k`-th of the appended files starts.
pub open spec fn fl_pos(base: int, fs: Seq<File>, k: int, client: u64) -> int {
    base + seq_sum(fs.take(k), fl_measure(client))
}

/// What appending the notification list does; the shape mirrors the homework
/// case, with one subtree per record.
pub open spec fn notifications_added(
    old_nodes: Seq<InoInfo>,
    new_nodes: Seq<InoInfo>,
    list_ino: u64,
    rs: Seq<Notification>,
    client: u64,
) -> bool {
    let base = old_nodes.len() as int;
    let l0 = old_nodes[list_ino as int]->ItemList_0@;
    let l1 = new_nodes[list_ino as int]->ItemList_0@;
    &&& new_nodes.len() == base + seq_sum(rs, nf_measure(client))
    &&& forall|j: int| 0 <= j < base && j != list_ino ==> new_nodes[j] == old_nodes[j]
    &&& new_nodes[list_ino as int] is ItemList
    &&& l1.len() == l0.len() + rs.len()
    &&& forall|k: int| 0 <= k < l0.len() ==> l1[k] == l0[k]
    &&& forall|k: int|
        0 <= k < rs.len() ==> (#[trigger] l1[l0.len() + k]).0@ == rs[k].title@ && l1[l0.len()
            + k].1 == nf_pos(base, rs, k, client)
    &&& forall|k: int|
        0 <= k < rs.len() ==> is_plain_item(
            new_nodes,
            nf_pos(base, rs, k, client),
            notification_fields(rs[k], client),
        )
}

/// What appending the file list does; the shape mirrors the homework
/// case, with one subtree per record.
pub open spec fn files_added(
    old_nodes: Seq<InoInfo>,
    new_nodes: Seq<InoInfo>,
    list_ino: u64,
    rs: Seq<File>,
    client: u64,
) -> bool {
    let base = old_nodes.len() as int;
    let l0 = old_nodes[list_ino as int]->ItemList_0@;
    let l1 = new_nodes[list_ino as int]->ItemList_0@;
    &&& new_nodes.len() == base + seq_sum(rs, fl_measure(client))
    &&& forall|j: int| 0 <= j < base && j != list_ino ==> new_nodes[j] == old_nodes[j]
    &&& new_nodes[list_ino as int] is ItemList
    &&& l1.len() == l0.len() + rs.len()
    &&& forall|k: int| 0 <= k < l0.len() ==> l1[k] == l0[k]
    &&& forall|k: int|
        0 <= k < rs.len() ==> (#[trigger] l1[l0.len() + k]).0@ == rs[k].title@ && l1[l0.len()
            + k].1 == fl_pos(base, rs, k, client)
    &&& forall|k: int|
        0 <= k < rs.len() ==> is_plain_item(
            new_nodes,
            fl_pos(base, rs, k, client),
            file_fields(rs[k], client),
        )
}

/// What appending the discussion list does: each thread and its refresh
/// action are appended as a pair, and the category list names each
/// thread, in order.
pub open spec fn discussions_added(
    old_nodes: Seq<InoInfo>,
    new_nodes: Seq<InoInfo>,
    list_ino: u64,
    course_id: String,
    ds: Seq<Discussion>,
    client: u64,
) -> bool {
    let base = old_nodes.len() as int;
    let l0 = old_nodes[list_ino as int]->ItemList_0@;
    let l1 = new_nodes[list_ino as int]->ItemList_0@;
    &&& new_nodes.len() == base + 2 * ds.len()
    &&& forall|j: int| 0 <= j < base && j != list_ino ==> new_nodes[j] == old_nodes[j]
    &&& new_nodes[list_ino as int] is ItemList
    &&& l1.len() == l0.len() + ds.len()
    &&& forall|k: int| 0 <= k < l0.len() ==> l1[k] == l0[k]
    &&& forall|k: int|
        0 <= k < ds.len() ==> (#[trigger] l1[l0.len() + k]).0@ == ds[k].title@ && l1[l0.len()
            + k].1 == base + 2 * k
    &&& forall|k: int|
        0 <= k < ds.len() ==> is_discussion_block(new_nodes, base + 2 * k, course_id, ds[k], client)
}

impl crate::fs::LearnFS {
    /// Appends every notification's subtree and links each into the category
    /// list, in list order.
    #[verifier::rlimit(100)]
    #[verifier::spinoff_prover]
    pub(crate) fn add_notifications(&mut self, list_ino: u64, rs: &Vec<Notification>, client: u64)
        requires
            old(self).wf(),
            list_ino < old(self).inos@.len(),
            old(self).inos@[list_ino as int] is ItemList,
            old(self).inos@.len() + 16 * rs@.len() + 16 <= u64::MAX,
        ensures
            final(self).wf(),
            notifications_added(old(self).inos@, final(self).inos@, list_ino, rs@, client),
    {
        let ghost old_nodes = self.inos@;
        let n = rs.len();
        let mut k: usize = 0;
        proof {
            assert(rs@.take(0) =~= Seq::<Notification>::empty());
        }
        while k < n
            invariant
                self.wf(),
                n == rs@.len(),
                k <= n,
                list_ino < old_nodes.len(),
                old_nodes[list_ino as int] is ItemList,
                old_nodes.len() + 16 * rs@.len() + 16 <= u64::MAX,
                self.inos@.len() == old_nodes.len() + seq_sum(
                    rs@.take(k as int),
                    nf_measure(client),
                ),
                0 <= seq_sum(rs@.take(k as int), nf_measure(client)) <= 16 * k,
                forall|j: int|
                    0 <= j < old_nodes.len() && j != list_ino ==> self.inos@[j] == old_nodes[j],
                self.inos@[list_ino as int] is ItemList,
                ({
                    let l0 = old_nodes[list_ino as int]->ItemList_0@;
                    let l1 = self.inos@[list_ino as int]->ItemList_0@;
                    &&& l1.len() == l0.len() + k
                    &&& forall|j: int| 0 <= j < l0.len() ==> l1[j] == l0[j]
                    &&& forall|j: int|
                        0 <= j < k ==> (#[trigger] l1[l0.len() + j]).0@ == rs@[j].title@
                            && l1[l0.len() + j].1 == nf_pos(
                            old_nodes.len() as int,
                            rs@,
                            j,
                            client,
                        )
                }),
                forall|j: int|
                    0 <= j < k ==> is_plain_item(
                        self.inos@,
                        nf_pos(old_nodes.len() as int, rs@, j, client),
                        notification_fields(rs@[j], client),
                    ),
            decreases n - k,
        {
            let ghost prev = self.inos@;
            let r = &rs[k];
            proof {
                lemma_notification_fields_len(*r, client);
            }
            let b_ino = self.inos.len() as u64;
            let (m, cs) = notification_content(r, b_ino + 1, client);
            let b = self.push_plain_item(m, cs, Ghost(notification_fields(*r, client)));
            let ghost after_push = self.inos@;
            let title = r.title.clone();
            let nmut = self.node_mut(list_ino);
            match nmut {
                InoInfo::ItemList(lm) => {
                    lm.push((title, b));
                },
                _ => {},
            }
            proof {
                let cur = self.inos@;
                let l0 = old_nodes[list_ino as int]->ItemList_0@;
                let prev_list = after_push[list_ino as int]->ItemList_0@;
                assert(cur[list_ino as int] is ItemList);
                assert(cur[list_ino as int]->ItemList_0@ == prev_list.push((title, b)));
                assert(node_ok(after_push, list_ino as int));
                assert forall|j: int|
                    0 <= j < cur[list_ino as int]->ItemList_0@.len() implies (
                #[trigger] cur[list_ino as int]->ItemList_0@[j]).1 < cur.len() by {
                    if j < prev_list.len() {
                        assert(cur[list_ino as int]->ItemList_0@[j] == prev_list[j]);
                    }
                }
                assert(node_ok(cur, list_ino as int));
                lemma_arena_update(after_push, list_ino as int, cur[list_ino as int]);
                assert(cur == after_push.update(list_ino as int, cur[list_ino as int]));
                lemma_seq_sum_take(rs@, nf_measure(client), k as int);
                assert(nf_measure(client)(rs@[k as int]) == 1 + notification_fields(
                    rs@[k as int],
                    client,
                ).len());
                assert(b as int == nf_pos(old_nodes.len() as int, rs@, k as int, client));
                lemma_plain_item_preserved(
                    after_push,
                    cur,
                    b as int,
                    notification_fields(*r, client),
                );
                assert forall|j: int|
                    0 <= j < k + 1 implies is_plain_item(
                    cur,
                    nf_pos(old_nodes.len() as int, rs@, j, client),
                    notification_fields(rs@[j], client),
                ) by {
                    if j < k {
                        let pos = nf_pos(old_nodes.len() as int, rs@, j, client);
                        assert(is_plain_item(prev, pos, notification_fields(rs@[j], client)));
                        assert forall|t: int|
                            0 <= t < rs@.take(j).len() implies 0 <= #[trigger] nf_measure(
                            client,
                        )(rs@.take(j)[t]) <= 16 by {
                            lemma_notification_fields_len(rs@.take(j)[t], client);
                        }
                        lemma_seq_sum_bounds(rs@.take(j), nf_measure(client), 0, 16);
                        assert forall|i: int|
                            pos <= i < pos + 1 + notification_fields(rs@[j], client).len() implies
                        cur[i] == prev[i] by {
                            assert(old_nodes.len() <= pos);
                            assert(pos + 1 + notification_fields(rs@[j], client).len() <= prev.len());
                            assert(cur[i] == after_push[i]);
                        }
                        lemma_plain_item_preserved(prev, cur, pos, notification_fields(rs@[j], client));
                    }
                }
            }
            k = k + 1;
        }
        proof {
            assert(rs@.take(n as int) =~= rs@);
        }
    }

    /// Appends every file's subtree and links each into the category
    /// list, in list order.
    #[verifier::rlimit(100)]
    #[verifier::spinoff_prover]
    pub(crate) fn add_files(&mut self, list_ino: u64, rs: &Vec<File>, client: u64)
        requires
            old(self).wf(),
            list_ino < old(self).inos@.len(),
            old(self).inos@[list_ino as int] is ItemList,
            old(self).inos@.len() + 16 * rs@.len() + 16 <= u64::MAX,
        ensures
            final(self).wf(),
            files_added(old(self).inos@, final(self).inos@, list_ino, rs@, client),
    {
        let ghost old_nodes = self.inos@;
        let n = rs.len();
        let mut k: usize = 0;
        proof {
            assert(rs@.take(0) =~= Seq::<File>::empty());
        }
        while k < n
            invariant
                self.wf(),
                n == rs@.len(),
                k <= n,
                list_ino < old_nodes.len(),
                old_nodes[list_ino as int] is ItemList,
                old_nodes.len() + 16 * rs@.len() + 16 <= u64::MAX,
                self.inos@.len() == old_nodes.len() + seq_sum(
                    rs@.take(k as int),
                    fl_measure(client),
                ),
                0 <= seq_sum(rs@.take(k as int), fl_measure(client)) <= 16 * k,
                forall|j: int|
                    0 <= j < old_nodes.len() && j != list_ino ==> self.inos@[j] == old_nodes[j],
                self.inos@[list_ino as int] is ItemList,
                ({
                    let l0 = old_nodes[list_ino as int]->ItemList_0@;
                    let l1 = self.inos@[list_ino as int]->ItemList_0@;
                    &&& l1.len() == l0.len() + k
                    &&& forall|j: int| 0 <= j < l0.len() ==> l1[j] == l0[j]
                    &&& forall|j: int|
                        0 <= j < k ==> (#[trigger] l1[l0.len() + j]).0@ == rs@[j].title@
                            && l1[l0.len() + j].1 == fl_pos(
                            old_nodes.len() as int,
                            rs@,
                            j,
                            client,
                        )
                }),
                forall|j: int|
                    0 <= j < k ==> is_plain_item(
                        self.inos@,
                        fl_pos(old_nodes.len() as int, rs@, j, client),
                        file_fields(rs@[j], client),
                    ),
            decreases n - k,
        {
            let ghost prev = self.inos@;
            let r = &rs[k];
            proof {
                assert(file_fields(*r, client).len() == 8);
            }
            let b_ino = self.inos.len() as u64;
            let (m, cs) = file_content(r, b_ino + 1, client);
            let b = self.push_plain_item(m, cs, Ghost(file_fields(*r, client)));
            let ghost after_push = self.inos@;
            let title = r.title.clone();
            let nmut = self.node_mut(list_ino);
            match nmut {
                InoInfo::ItemList(lm) => {
                    lm.push((title, b));
                },
                _ => {},
            }
            proof {
                let cur = self.inos@;
                let l0 = old_nodes[list_ino as int]->ItemList_0@;
                let prev_list = after_push[list_ino as int]->ItemList_0@;
                assert(cur[list_ino as int] is ItemList);
                assert(cur[list_ino as int]->ItemList_0@ == prev_list.push((title, b)));
                assert(node_ok(after_push, list_ino as int));
                assert forall|j: int|
                    0 <= j < cur[list_ino as int]->ItemList_0@.len() implies (
                #[trigger] cur[list_ino as int]->ItemList_0@[j]).1 < cur.len() by {
                    if j < prev_list.len() {
                        assert(cur[list_ino as int]->ItemList_0@[j] == prev_list[j]);
                    }
                }
                assert(node_ok(cur, list_ino as int));
                lemma_arena_update(after_push, list_ino as int, cur[list_ino as int]);
                assert(cur == after_push.update(list_ino as int, cur[list_ino as int]));
                lemma_seq_sum_take(rs@, fl_measure(client), k as int);
                assert(fl_measure(client)(rs@[k as int]) == 1 + file_fields(
                    rs@[k as int],
                    client,
                ).len());
                assert(b as int == fl_pos(old_nodes.len() as int, rs@, k as int, client));
                lemma_plain_item_preserved(
                    after_push,
                    cur,
                    b as int,
                    file_fields(*r, client),
                );
                assert forall|j: int|
                    0 <= j < k + 1 implies is_plain_item(
                    cur,
                    fl_pos(old_nodes.len() as int, rs@, j, client),
                    file_fields(rs@[j], client),
                ) by {
                    if j < k {
                        let pos = fl_pos(old_nodes.len() as int, rs@, j, client);
                        assert(is_plain_item(prev, pos, file_fields(rs@[j], client)));
                        assert forall|t: int|
                            0 <= t < rs@.take(j).len() implies 0 <= #[trigger] fl_measure(
                            client,
                        )(rs@.take(j)[t]) <= 16 by {
                            assert(file_fields(rs@.take(j)[t], client).len() == 8);
                        }
                        lemma_seq_sum_bounds(rs@.take(j), fl_measure(client), 0, 16);
                        assert forall|i: int|
                            pos <= i < pos + 1 + file_fields(rs@[j], client).len() implies
                        cur[i] == prev[i] by {
                            assert(old_nodes.len() <= pos);
                            assert(pos + 1 + file_fields(rs@[j], client).len() <= prev.len());
                            assert(cur[i] == after_push[i]);
                        }
                        lemma_plain_item_preserved(prev, cur, pos, file_fields(rs@[j], client));
                    }
                }
            }
            k = k + 1;
        }
        proof {
            assert(rs@.take(n as int) =~= rs@);
        }
    }

    /// Appends every discussion's subtree (thread plus refresh action)
    /// and links each thread into the category list, in list order.
    #[verifier::rlimit(100)]
    #[verifier::spinoff_prover]
    pub(crate) fn add_discussions(
        &mut self,
        list_ino: u64,
        course_id: &String,
        ds: &Vec<Discussion>,
        client: u64,
    )
        requires
            old(self).wf(),
            list_ino < old(self).inos@.len(),
            old(self).inos@[list_ino as int] is ItemList,
            old(self).inos@.len() + 16 * ds@.len() + 16 <= u64::MAX,
        ensures
            final(self).wf(),
            discussions_added(
                old(self).inos@,
                final(self).inos@,
                list_ino,
                *course_id,
                ds@,
                client,
            ),
    {
        let ghost old_nodes = self.inos@;
        let n = ds.len();
        let mut k: usize = 0;
        while k < n
            invariant
                self.wf(),
                n == ds@.len(),
                k <= n,
                list_ino < old_nodes.len(),
                old_nodes[list_ino as int] is ItemList,
                old_nodes.len() + 16 * ds@.len() + 16 <= u64::MAX,
                self.inos@.len() == old_nodes.len() + 2 * k,
                forall|j: int|
                    0 <= j < old_nodes.len() && j != list_ino ==> self.inos@[j] == old_nodes[j],
                self.inos@[list_ino as int] is ItemList,
                ({
                    let l0 = old_nodes[list_ino as int]->ItemList_0@;
                    let l1 = self.inos@[list_ino as int]->ItemList_0@;
                    &&& l1.len() == l0.len() + k
                    &&& forall|j: int| 0 <= j < l0.len() ==> l1[j] == l0[j]
                    &&& forall|j: int|
                        0 <= j < k ==> (#[trigger] l1[l0.len() + j]).0@ == ds@[j].title@
                            && l1[l0.len() + j].1 == old_nodes.len() + 2 * j
                }),
                forall|j: int|
                    0 <= j < k ==> is_discussion_block(
                        self.inos@,
                        old_nodes.len() + 2 * j,
                        *course_id,
                        ds@[j],
                        client,
                    ),
            decreases n - k,
        {
            let ghost prev = self.inos@;
            let d = &ds[k];
            let b = self.push_discussion_block(course_id, d, client);
            let ghost after_push = self.inos@;
            let title = d.title.clone();
            let nmut = self.node_mut(list_ino);
            match nmut {
                InoInfo::ItemList(lm) => {
                    lm.push((title, b));
                },
                _ => {},
            }
            proof {
                let cur = self.inos@;
                let prev_list = after_push[list_ino as int]->ItemList_0@;
                assert(cur[list_ino as int] is ItemList);
                assert(cur[list_ino as int]->ItemList_0@ == prev_list.push((title, b)));
                assert(node_ok(after_push, list_ino as int));
                assert forall|j: int|
                    0 <= j < cur[list_ino as int]->ItemList_0@.len() implies (
                #[trigger] cur[list_ino as int]->ItemList_0@[j]).1 < cur.len() by {
                    if j < prev_list.len() {
                        assert(cur[list_ino as int]->ItemList_0@[j] == prev_list[j]);
                    }
                }
                assert(node_ok(cur, list_ino as int));
                lemma_arena_update(after_push, list_ino as int, cur[list_ino as int]);
                assert(cur == after_push.update(list_ino as int, cur[list_ino as int]));
                lemma_discussion_block_preserved(after_push, cur, b as int, *course_id, *d, client);
                assert forall|j: int|
                    0 <= j < k + 1 implies is_discussion_block(
                    cur,
                    old_nodes.len() + 2 * j,
                    *course_id,
                    ds@[j],
                    client,
                ) by {
                    if j < k {
                        let pos = old_nodes.len() + 2 * j;
                        assert(is_discussion_block(prev, pos, *course_id, ds@[j], client));
                        assert forall|i: int| pos <= i < pos + 2 implies cur[i] == prev[i] by {
                            assert(cur[i] == after_push[i]);
                        }
                        lemma_discussion_block_preserved(prev, cur, pos, *course_id, ds@[j], client);
                    }
                }
            }
            k = k + 1;
        }
    }
}


/// The four category lists after lazy population: each extended with its
/// items, in fetch order, pointing at the appended subtrees.
pub open spec fn course_lists_populated(
    old_nodes: Seq<InoInfo>,
    new_nodes: Seq<InoInfo>,
    ino: u64,
    hs: Seq<Homework>,
    ns: Seq<Notification>,
    fs: Seq<File>,
    ds: Seq<Discussion>,
    client: u64,
) -> bool {
    let base_h = old_nodes.len() as int;
    let base_n = base_h + seq_sum(hs, hw_measure(client));
    let base_f = base_n + seq_sum(ns, nf_measure(client));
    let base_d = base_f + seq_sum(fs, fl_measure(client));
    &&& ({
        let l0 = old_nodes[ino as int + 1]->ItemList_0@;
        let l1 = new_nodes[ino as int + 1]->ItemList_0@;
        &&& new_nodes[ino as int + 1] is ItemList
        &&& l1.len() == l0.len() + hs.len()
        &&& forall|k: int| 0 <= k < l0.len() ==> l1[k] == l0[k]
        &&& forall|k: int|
            0 <= k < hs.len() ==> (#[trigger] l1[l0.len() + k]).0@ == hs[k].title@ && l1[l0.len()
                + k].1 == hw_pos(base_h, hs, k, client)
    })
    &&& ({
        let l0 = old_nodes[ino as int + 2]->ItemList_0@;
        let l1 = new_nodes[ino as int + 2]->ItemList_0@;
        &&& new_nodes[ino as int + 2] is ItemList
        &&& l1.len() == l0.len() + ns.len()
        &&& forall|k: int| 0 <= k < l0.len() ==> l1[k] == l0[k]
        &&& forall|k: int|
            0 <= k < ns.len() ==> (#[trigger] l1[l0.len() + k]).0@ == ns[k].title@ && l1[l0.len()
                + k].1 == nf_pos(base_n, ns, k, client)
    })
    &&& ({
        let l0 = old_nodes[ino as int + 3]->ItemList_0@;
        let l1 = new_nodes[ino as int + 3]->ItemList_0@;
        &&& new_nodes[ino as int + 3] is ItemList
        &&& l1.len() == l0.len() + fs.len()
        &&& forall|k: int| 0 <= k < l0.len() ==> l1[k] == l0[k]
        &&& forall|k: int|
            0 <= k < fs.len() ==> (#[trigger] l1[l0.len() + k]).0@ == fs[k].title@ && l1[l0.len()
                + k].1 == fl_pos(base_f, fs, k, client)
    })
    &&& ({
        let l0 = old_nodes[ino as int + 4]->ItemList_0@;
        let l1 = new_nodes[ino as int + 4]->ItemList_0@;
        &&& new_nodes[ino as int + 4] is ItemList
        &&& l1.len() == l0.len() + ds.len()
        &&& forall|k: int| 0 <= k < l0.len() ==> l1[k] == l0[k]
        &&& forall|k: int|
            0 <= k < ds.len() ==> (#[trigger] l1[l0.len() + k]).0@ == ds[k].title@ && l1[l0.len()
                + k].1 == base_d + 2 * k
    })
}

/// The appended region after lazy population: one subtree per item of
/// each category, laid out category by category.
pub open spec fn course_subtrees_populated(
    old_nodes: Seq<InoInfo>,
    new_nodes: Seq<InoInfo>,
    ino: u64,
    hs: Seq<Homework>,
    ns: Seq<Notification>,
    fs: Seq<File>,
    ds: Seq<Discussion>,
    client: u64,
) -> bool {
    let base_h = old_nodes.len() as int;
    let base_n = base_h + seq_sum(hs, hw_measure(client));
    let base_f = base_n + seq_sum(ns, nf_measure(client));
    let base_d = base_f + seq_sum(fs, fl_measure(client));
    let id = old_nodes[ino as int]->Course_id;
    &&& forall|k: int|
        0 <= k < hs.len() ==> is_homework_item(new_nodes, hw_pos(base_h, hs, k, client), hs[k], client)
    &&& forall|k: int|
        0 <= k < ns.len() ==> is_plain_item(
            new_nodes,
            nf_pos(base_n, ns, k, client),
            notification_fields(ns[k], client),
        )
    &&& forall|k: int|
        0 <= k < fs.len() ==> is_plain_item(
            new_nodes,
            fl_pos(base_f, fs, k, client),
            file_fields(fs[k], client),
        )
    &&& forall|k: int|
        0 <= k < ds.len() ==> is_discussion_block(new_nodes, base_d + 2 * k, id, ds[k], client)
}

/// Everything lazy population of a course does: the one-shot flag set,
/// the four category lists filled, the subtrees appended, and every
/// other node untouched.
pub open spec fn course_populated(
    old_nodes: Seq<InoInfo>,
    new_nodes: Seq<InoInfo>,
    ino: u64,
    hs: Seq<Homework>,
    ns: Seq<Notification>,
    fs: Seq<File>,
    ds: Seq<Discussion>,
) -> bool {
    let client = old_nodes[ino as int]->Course_client;
    let id = old_nodes[ino as int]->Course_id;
    let base_h = old_nodes.len() as int;
    let base_n = base_h + seq_sum(hs, hw_measure(client));
    let base_f = base_n + seq_sum(ns, nf_measure(client));
    let base_d = base_f + seq_sum(fs, fl_measure(client));
    &&& new_nodes.len() == base_d + 2 * ds.len()
    &&& forall|j: int|
        0 <= j < base_h && j != ino && !(ino < j <= ino + 4) ==> new_nodes[j] == old_nodes[j]
    &&& new_nodes[ino as int] == (InoInfo::Course { id, client, fetched: true })
    &&& course_lists_populated(old_nodes, new_nodes, ino, hs, ns, fs, ds, client)
    &&& course_subtrees_populated(old_nodes, new_nodes, ino, hs, ns, fs, ds, client)
}



/// Homework subtrees already built in a region survive later phases that
/// never touch that region.
#[verifier::rlimit(100)]
pub proof fn lemma_hw_region_carried(
    s: Seq<InoInfo>,
    fin: Seq<InoInfo>,
    base: int,
    hs: Seq<Homework>,
    client: u64,
)
    requires
        s.len() <= fin.len(),
        forall|i: int| base <= i < s.len() ==> fin[i] == s[i],
        forall|k: int|
            0 <= k < hs.len() ==> is_homework_item(s, hw_pos(base, hs, k, client), hs[k], client),
    ensures
        forall|k: int|
            0 <= k < hs.len() ==> is_homework_item(
                fin,
                hw_pos(base, hs, k, client),
                hs[k],
                client,
            ),
{
    assert forall|k: int|
        0 <= k < hs.len() implies is_homework_item(
        fin,
        hw_pos(base, hs, k, client),
        hs[k],
        client,
    ) by {
        let pos = hw_pos(base, hs, k, client);
        assert(is_homework_item(s, pos, hs[k], client));
        assert forall|t: int|
            0 <= t < hs.take(k).len() implies 0 <= #[trigger] hw_measure(client)(
            hs.take(k)[t],
        ) <= 16 by {
            lemma_homework_fields_len(hs.take(k)[t], client);
        }
        lemma_seq_sum_bounds(hs.take(k), hw_measure(client), 0, 16);
        assert forall|i: int|
            pos <= i < pos + 3 + homework_fields(hs[k], client).len() implies fin[i] == s[i] by {
            assert(base <= pos);
            assert(pos + 3 + homework_fields(hs[k], client).len() <= s.len());
        }
        lemma_homework_item_preserved(s, fin, pos, hs[k], client);
    }
}

/// Notification subtrees already built survive later phases.
#[verifier::rlimit(100)]
pub proof fn lemma_nf_region_carried(
    s: Seq<InoInfo>,
    fin: Seq<InoInfo>,
    base: int,
    ns: Seq<Notification>,
    client: u64,
)
    requires
        s.len() <= fin.len(),
        forall|i: int| base <= i < s.len() ==> fin[i] == s[i],
        forall|k: int|
            0 <= k < ns.len() ==> is_plain_item(
                s,
                nf_pos(base, ns, k, client),
                notification_fields(ns[k], client),
            ),
    ensures
        forall|k: int|
            0 <= k < ns.len() ==> is_plain_item(
                fin,
                nf_pos(base, ns, k, client),
                notification_fields(ns[k], client),
            ),
{
    assert forall|k: int|
        0 <= k < ns.len() implies is_plain_item(
        fin,
        nf_pos(base, ns, k, client),
        notification_fields(ns[k], client),
    ) by {
        let pos = nf_pos(base, ns, k, client);
        assert(is_plain_item(s, pos, notification_fields(ns[k], client)));
        assert forall|t: int|
            0 <= t < ns.take(k).len() implies 0 <= #[trigger] nf_measure(client)(
            ns.take(k)[t],
        ) <= 16 by {
            lemma_notification_fields_len(ns.take(k)[t], client);
        }
        lemma_seq_sum_bounds(ns.take(k), nf_measure(client), 0, 16);
        assert forall|i: int|
            pos <= i < pos + 1 + notification_fields(ns[k], client).len() implies fin[i]
            == s[i] by {
            assert(base <= pos);
            assert(pos + 1 + notification_fields(ns[k], client).len() <= s.len());
        }
        lemma_plain_item_preserved(s, fin, pos, notification_fields(ns[k], client));
    }
}

/// File subtrees already built survive later phases.
#[verifier::rlimit(100)]
pub proof fn lemma_fl_region_carried(
    s: Seq<InoInfo>,
    fin: Seq<InoInfo>,
    base: int,
    fs: Seq<File>,
    client: u64,
)
    requires
        s.len() <= fin.len(),
        forall|i: int| base <= i < s.len() ==> fin[i] == s[i],
        forall|k: int|
            0 <= k < fs.len() ==> is_plain_item(
                s,
                fl_pos(base, fs, k, client),
                file_fields(fs[k], client),
            ),
    ensures
        forall|k: int|
            0 <= k < fs.len() ==> is_plain_item(
                fin,
                fl_pos(base, fs, k, client),
                file_fields(fs[k], client),
            ),
{
    assert forall|k: int|
        0 <= k < fs.len() implies is_plain_item(
        fin,
        fl_pos(base, fs, k, client),
        file_fields(fs[k], client),
    ) by {
        let pos = fl_pos(base, fs, k, client);
        assert(is_plain_item(s, pos, file_fields(fs[k], client)));
        assert forall|t: int|
            0 <= t < fs.take(k).len() implies 0 <= #[trigger] fl_measure(client)(
            fs.take(k)[t],
        ) <= 16 by {
            assert(file_fields(fs.take(k)[t], client).len() == 8);
        }
        lemma_seq_sum_bounds(fs.take(k), fl_measure(client), 0, 16);
        assert forall|i: int|
            pos <= i < pos + 1 + file_fields(fs[k], client).len() implies fin[i] == s[i] by {
            assert(base <= pos);
            assert(pos + 1 + file_fields(fs[k], client).len() <= s.len());
        }
        lemma_plain_item_preserved(s, fin, pos, file_fields(fs[k], client));
    }
}

/// Stitches the four population phases together: starting from the course
/// node with its flag set, the phases fill the four lists and append the
/// four regions, and nothing else moves.
#[verifier::rlimit(100)]
#[verifier::spinoff_prover]
pub proof fn lemma_course_populated(
    old_nodes: Seq<InoInfo>,
    s1: Seq<InoInfo>,
    s2: Seq<InoInfo>,
    s3: Seq<InoInfo>,
    s4: Seq<InoInfo>,
    new_nodes: Seq<InoInfo>,
    ino: u64,
    hs: Seq<Homework>,
    ns: Seq<Notification>,
    fs: Seq<File>,
    ds: Seq<Discussion>,
    client: u64,
    id: String,
)
    requires
        ino < old_nodes.len(),
        ino + 4 <= u64::MAX,
        node_ok(old_nodes, ino as int),
        old_nodes[ino as int] is Course,
        client == old_nodes[ino as int]->Course_client,
        id == old_nodes[ino as int]->Course_id,
        s1.len() == old_nodes.len(),
        forall|j: int| 0 <= j < old_nodes.len() && j != ino ==> s1[j] == old_nodes[j],
        s1[ino as int] == (InoInfo::Course { id, client, fetched: true }),
        homeworks_added(s1, s2, (ino + 1) as u64, hs, client),
        notifications_added(s2, s3, (ino + 2) as u64, ns, client),
        files_added(s3, s4, (ino + 3) as u64, fs, client),
        discussions_added(s4, new_nodes, (ino + 4) as u64, id, ds, client),
    ensures
        course_populated(old_nodes, new_nodes, ino, hs, ns, fs, ds),
{
    assert forall|t: int|
        0 <= t < hs.len() implies 0 <= #[trigger] hw_measure(client)(hs[t]) <= 16 by {
        lemma_homework_fields_len(hs[t], client);
    }
    lemma_seq_sum_bounds(hs, hw_measure(client), 0, 16);
    assert forall|t: int|
        0 <= t < ns.len() implies 0 <= #[trigger] nf_measure(client)(ns[t]) <= 16 by {
        lemma_notification_fields_len(ns[t], client);
    }
    lemma_seq_sum_bounds(ns, nf_measure(client), 0, 16);
    assert forall|t: int|
        0 <= t < fs.len() implies 0 <= #[trigger] fl_measure(client)(fs[t]) <= 16 by {
        assert(file_fields(fs[t], client).len() == 8);
    }
    lemma_seq_sum_bounds(fs, fl_measure(client), 0, 16);

            let base_h = old_nodes.len() as int;
            let base_n = base_h + seq_sum(hs, hw_measure(client));
            let base_f = base_n + seq_sum(ns, nf_measure(client));
            let base_d = base_f + seq_sum(fs, fl_measure(client));
            assert(s2.len() == base_n);
            assert(s3.len() == base_f);
            assert(s4.len() == base_d);
            // everything below the course block is untouched
            assert forall|j: int|
                0 <= j < base_h && j != ino && !(ino < j <= ino + 4) implies new_nodes[j]
                == old_nodes[j] by {
                assert(s1[j] == old_nodes[j]);
                assert(s2[j] == s1[j]);
                assert(s3[j] == s2[j]);
                assert(s4[j] == s3[j]);
                assert(new_nodes[j] == s4[j]);
            }
            assert(new_nodes[ino as int] == s1[ino as int]);
            // each phase's region survives the later phases
            assert forall|i: int| base_h <= i < base_n implies new_nodes[i] == s2[i] by {
                assert(s3[i] == s2[i]);
                assert(s4[i] == s3[i]);
                assert(new_nodes[i] == s4[i]);
            }
            assert forall|i: int| base_n <= i < base_f implies new_nodes[i] == s3[i] by {
                assert(s4[i] == s3[i]);
                assert(new_nodes[i] == s4[i]);
            }
            assert forall|i: int| base_f <= i < base_d implies new_nodes[i] == s4[i] by {
                assert(new_nodes[i] == s4[i]);
            }
            // the homework lists and subtrees, carried to the final state
            assert(new_nodes[ino as int + 1] == s2[ino as int + 1]);
            assert(new_nodes[ino as int + 2] == s3[ino as int + 2]);
            assert(new_nodes[ino as int + 3] == s4[ino as int + 3]);
            assert(s1[ino as int + 1] == old_nodes[ino as int + 1]);
            assert(s1[ino as int + 2] == old_nodes[ino as int + 2]);
            assert(s2[ino as int + 2] == old_nodes[ino as int + 2]);
            assert(s1[ino as int + 3] == old_nodes[ino as int + 3]);
            assert(s2[ino as int + 3] == old_nodes[ino as int + 3]);
            assert(s3[ino as int + 3] == old_nodes[ino as int + 3]);
            assert(s1[ino as int + 4] == old_nodes[ino as int + 4]);
            assert(s2[ino as int + 4] == old_nodes[ino as int + 4]);
            assert(s3[ino as int + 4] == old_nodes[ino as int + 4]);
            assert(s4[ino as int + 4] == old_nodes[ino as int + 4]);
            lemma_hw_region_carried(s2, new_nodes, base_h, hs, client);
            lemma_nf_region_carried(s3, new_nodes, base_n, ns, client);
            lemma_fl_region_carried(s4, new_nodes, base_f, fs, client);

    assert(course_populated(old_nodes, new_nodes, ino, hs, ns, fs, ds));
}

impl crate::fs::LearnFS {
    /// Lazy population of one course: on the first listing, the four
    /// category lists are filled from the fetched records and the one-shot
    /// flag is set; once fetched, the call changes nothing, so it is safe
    /// before every lookup or listing.
    #[verifier::rlimit(100)]
    #[verifier::spinoff_prover]
    pub fn populate_course(
        &mut self,
        ino: u64,
        hs: &Vec<Homework>,
        ns: &Vec<Notification>,
        fs: &Vec<File>,
        ds: &Vec<Discussion>,
    )
        requires
            old(self).wf(),
            ino < old(self).inos@.len(),
            old(self).inos@[ino as int] is Course,
            old(self).inos@.len() + 16 * (hs@.len() + ns@.len() + fs@.len() + ds@.len()) + 16
                <= u64::MAX,
        ensures
            final(self).wf(),
            old(self).inos@[ino as int]->Course_fetched ==> *final(self) == *old(self),
            !old(self).inos@[ino as int]->Course_fetched ==> course_populated(
                old(self).inos@,
                final(self).inos@,
                ino,
                hs@,
                ns@,
                fs@,
                ds@,
            ),
    {
        let ghost old_nodes = self.inos@;
        let (client, fetched) = match self.node(ino) {
            InoInfo::Course { id, client, fetched } => (*client, *fetched),
            _ => (0u64, true),
        };
        if fetched {
            return;
        }
        let id = match self.node(ino) {
            InoInfo::Course { id, .. } => id.clone(),
            _ => String::new(),
        };
        proof {
            assert(node_ok(old_nodes, ino as int));
        }
        let nmut = self.node_mut(ino);
        match nmut {
            InoInfo::Course { fetched, .. } => {
                *fetched = true;
            },
            _ => {},
        }
        let ghost s1 = self.inos@;
        proof {
            assert(s1[ino as int] == (InoInfo::Course { id, client, fetched: true }));
            assert(node_ok(s1, ino as int)) by {
                assert(s1[ino as int + 1] == old_nodes[ino as int + 1]);
                assert(s1[ino as int + 2] == old_nodes[ino as int + 2]);
                assert(s1[ino as int + 3] == old_nodes[ino as int + 3]);
                assert(s1[ino as int + 4] == old_nodes[ino as int + 4]);
            }
            lemma_arena_update(old_nodes, ino as int, s1[ino as int]);
            assert(s1.len() == old_nodes.len());
        }
        self.add_homeworks(ino + 1, hs, client);
        let ghost s2 = self.inos@;
        proof {
            assert forall|t: int|
                0 <= t < hs@.len() implies 0 <= #[trigger] hw_measure(client)(hs@[t]) <= 16 by {
                lemma_homework_fields_len(hs@[t], client);
            }
            lemma_seq_sum_bounds(hs@, hw_measure(client), 0, 16);
        }
        self.add_notifications(ino + 2, ns, client);
        let ghost s3 = self.inos@;
        proof {
            assert forall|t: int|
                0 <= t < ns@.len() implies 0 <= #[trigger] nf_measure(client)(ns@[t]) <= 16 by {
                lemma_notification_fields_len(ns@[t], client);
            }
            lemma_seq_sum_bounds(ns@, nf_measure(client), 0, 16);
        }
        self.add_files(ino + 3, fs, client);
        let ghost s4 = self.inos@;
        proof {
            assert forall|t: int|
                0 <= t < fs@.len() implies 0 <= #[trigger] fl_measure(client)(fs@[t]) <= 16 by {
                assert(file_fields(fs@[t], client).len() == 8);
            }
            lemma_seq_sum_bounds(fs@, fl_measure(client), 0, 16);
        }
        self.add_discussions(ino + 4, &id, ds, client);
        proof {
            lemma_course_populated(
                old_nodes,
                s1,
                s2,
                s3,
                s4,
                self.inos@,
                ino,
                hs@,
                ns@,
                fs@,
                ds@,
                client,
                id,
            );
        }
    }
}



/// How many arena slots one top-level reply takes: itself and its nested
/// replies.
pub open spec fn rp_measure() -> spec_fn(DiscussionReply) -> int {
    |r: DiscussionReply| 1 + r.replies@.len() as int
}

/// The offset of the `i`-th top-level reply's node within the appended
/// region.
pub open spec fn rp_off(rs: Seq<DiscussionReply>, i: int) -> int {
    seq_sum(rs.take(i), rp_measure())
}

/// The listing name of a top-level reply: its floor number, author and
/// time.
pub open spec fn reply_entry_name(i: int, r: DiscussionReply) -> Seq<char> {
    dec_str(i) + "楼-"@ + r.author@ + "-"@ + r.publish_time@
}

/// The listing name of a nested reply under floor `i`.
pub open spec fn sub_reply_entry_name(i: int, j: int, sr: DiscussionSubReply) -> Seq<char> {
    dec_str(i) + "楼-回复"@ + dec_str(j) + "-"@ + sr.author@ + "-"@ + sr.publish_time@
}

/// One appended top-level reply node.
pub open spec fn is_reply_node(
    node: InoInfo,
    course: String,
    discussion: String,
    client: u64,
    id: Option<String>,
    content: String,
) -> bool {
    node matches InoInfo::DiscussionReply {
        course: c,
        discussion: d,
        id: i,
        client: cl,
        content: t,
    } && c@ == course@ && d@ == discussion@ && i == id && cl == client && t@ == content@
}

/// Everything reply population does: while the replies map holds only its
/// refresh sentinel, each fetched top-level reply and each of its nested
/// replies gains one node and one map entry, in fetch order; the map
/// entries land after the sentinel, and nothing else changes.
pub open spec fn discussion_populated(
    old_nodes: Seq<InoInfo>,
    new_nodes: Seq<InoInfo>,
    ino: u64,
    rs: Seq<DiscussionReply>,
) -> bool {
    let course = old_nodes[ino as int]->Discussion_course;
    let discussion = old_nodes[ino as int]->Discussion_discussion;
    let board = old_nodes[ino as int]->Discussion_board;
    let client = old_nodes[ino as int]->Discussion_client;
    let l0 = old_nodes[ino as int]->Discussion_replies@;
    let l1 = new_nodes[ino as int]->Discussion_replies@;
    let base = old_nodes.len() as int;
    &&& new_nodes.len() == base + seq_sum(rs, rp_measure())
    &&& forall|j: int| 0 <= j < base && j != ino ==> new_nodes[j] == old_nodes[j]
    &&& new_nodes[ino as int] is Discussion
    &&& new_nodes[ino as int]->Discussion_course == course
    &&& new_nodes[ino as int]->Discussion_discussion == discussion
    &&& new_nodes[ino as int]->Discussion_board == board
    &&& new_nodes[ino as int]->Discussion_client == client
    &&& l1.len() == l0.len() + seq_sum(rs, rp_measure())
    &&& forall|k: int| 0 <= k < l0.len() ==> l1[k] == l0[k]
    &&& forall|i: int|
        0 <= i < rs.len() ==> (#[trigger] l1[l0.len() + rp_off(rs, i)]).0@ == reply_entry_name(
            i,
            rs[i],
        ) && l1[l0.len() + rp_off(rs, i)].1 == base + rp_off(rs, i)
    &&& forall|i: int, j: int|
        0 <= i < rs.len() && 0 <= j < rs[i].replies@.len() ==> (#[trigger] l1[l0.len() + rp_off(
            rs,
            i,
        ) + 1 + j]).0@ == sub_reply_entry_name(i, j, rs[i].replies@[j]) && l1[l0.len() + rp_off(
            rs,
            i,
        ) + 1 + j].1 == base + rp_off(rs, i) + 1 + j
    &&& forall|i: int|
        0 <= i < rs.len() ==> is_reply_node(
            #[trigger] new_nodes[base + rp_off(rs, i)],
            course,
            discussion,
            client,
            rs[i].id,
            rs[i].content,
        )
    &&& forall|i: int, j: int|
        0 <= i < rs.len() && 0 <= j < rs[i].replies@.len() ==> is_reply_node(
            #[trigger] new_nodes[base + rp_off(rs, i) + 1 + j],
            course,
            discussion,
            client,
            rs[i].replies@[j].id,
            rs[i].replies@[j].content,
        )
}

/// Builds the listing name of floor `i`, or of its `j`-th nested reply.
fn reply_name(i: u64, sub: Option<u64>, author: &String, time: &String) -> (r: String)
    ensures
        match sub {
            None => r@ == dec_str(i as int) + "楼-"@ + author@ + "-"@ + time@,
            Some(j) => r@ == dec_str(i as int) + "楼-回复"@ + dec_str(j as int) + "-"@ + author@
                + "-"@ + time@,
        },
{
    let mut s = u64_to_string(i);
    match sub {
        None => {
            s.append("楼-");
        },
        Some(j) => {
            s.append("楼-回复");
            let js = u64_to_string(j);
            s.append(js.as_str());
            s.append("-");
        },
    }
    s.append(author.as_str());
    s.append("-");
    s.append(time.as_str());
    s
}


impl crate::fs::LearnFS {
    /// Appends the nested replies of floor `i`: one node and one pending
    /// map entry per reply, in order.
    #[verifier::rlimit(100)]
    fn push_sub_replies(
        &mut self,
        entries: &mut NameMap,
        i: u64,
        subs: &Vec<DiscussionSubReply>,
        course: &String,
        discussion: &String,
        client: u64,
    )
        requires
            old(self).wf(),
        ensures
            final(self).wf(),
            final(self).inos@.len() == old(self).inos@.len() + subs@.len(),
            forall|k: int|
                0 <= k < old(self).inos@.len() ==> final(self).inos@[k] == old(self).inos@[k],
            forall|j: int|
                0 <= j < subs@.len() ==> is_reply_node(
                    #[trigger] final(self).inos@[old(self).inos@.len() + j],
                    *course,
                    *discussion,
                    client,
                    subs@[j].id,
                    subs@[j].content,
                ),
            final(entries)@.len() == old(entries)@.len() + subs@.len(),
            forall|k: int| 0 <= k < old(entries)@.len() ==> final(entries)@[k] == old(entries)@[k],
            forall|j: int|
                0 <= j < subs@.len() ==> (#[trigger] final(entries)@[old(entries)@.len() + j]).0@
                    == sub_reply_entry_name(i as int, j, subs@[j]) && final(entries)@[old(
                    entries,
                )@.len() + j].1 == old(self).inos@.len() + j,
    {
        let ghost old_nodes = self.inos@;
        let ghost old_entries = entries@;
        let m = subs.len();
        let mut j: usize = 0;
        while j < m
            invariant
                self.wf(),
                m == subs@.len(),
                j <= m,
                self.inos@.len() == old_nodes.len() + j,
                forall|k: int| 0 <= k < old_nodes.len() ==> self.inos@[k] == old_nodes[k],
                forall|t: int|
                    0 <= t < j ==> is_reply_node(
                        #[trigger] self.inos@[old_nodes.len() + t],
                        *course,
                        *discussion,
                        client,
                        subs@[t].id,
                        subs@[t].content,
                    ),
                entries@.len() == old_entries.len() + j,
                forall|k: int| 0 <= k < old_entries.len() ==> entries@[k] == old_entries[k],
                forall|t: int|
                    0 <= t < j ==> (#[trigger] entries@[old_entries.len() + t]).0@
                        == sub_reply_entry_name(i as int, t, subs@[t]) && entries@[old_entries.len()
                        + t].1 == old_nodes.len() + t,
            decreases m - j,
        {
            let ghost prev = self.inos@;
            let sr = &subs[j];
            let b = self.inos.len() as u64;
            self.inos.push(
                InoInfo::DiscussionReply {
                    course: course.clone(),
                    discussion: discussion.clone(),
                    id: match &sr.id {
                        Some(x) => Some(x.clone()),
                        None => None,
                    },
                    client,
                    content: sr.content.clone(),
                },
            );
            let name = reply_name(i, Some(j as u64), &sr.author, &sr.publish_time);
            entries.push((name, b));
            proof {
                lemma_arena_extend(prev, self.inos@);
                assert forall|t: int| 0 <= t < self.inos@.len() implies #[trigger] node_ok(
                    self.inos@,
                    t,
                ) by {
                    if t < prev.len() {
                    }
                }
            }
            j = j + 1;
        }
    }

    /// Lazy population of a discussion's replies: while the map still
    /// holds only its refresh sentinel, every fetched top-level reply and
    /// each of its nested replies becomes one node and one map entry, in
    /// fetch order.  Once populated, the call changes nothing, so it is
    /// safe before every lookup or listing.
    #[verifier::rlimit(100)]
    #[verifier::spinoff_prover]
    pub fn populate_discussion(&mut self, ino: u64, rs: &Vec<DiscussionReply>)
        requires
            old(self).wf(),
            ino < old(self).inos@.len(),
            old(self).inos@[ino as int] is Discussion,
        ensures
            final(self).wf(),
            old(self).inos@[ino as int]->Discussion_replies@.len() != 1 ==> *final(self) == *old(
                self,
            ),
            old(self).inos@[ino as int]->Discussion_replies@.len() == 1
                ==> discussion_populated(old(self).inos@, final(self).inos@, ino, rs@),
    {
        let ghost old_nodes = self.inos@;
        let needs = match self.node(ino) {
            InoInfo::Discussion { replies, .. } => replies.len() == 1,
            _ => false,
        };
        if !needs {
            return;
        }
        let (course, discussion, client) = match self.node(ino) {
            InoInfo::Discussion { course, discussion, client, .. } => (
                course.clone(),
                discussion.clone(),
                *client,
            ),
            _ => (String::new(), String::new(), 0u64),
        };
        let mut new_entries: NameMap = Vec::new();
        let n = rs.len();
        let mut i: usize = 0;
        proof {
            assert(rs@.take(0) =~= Seq::<DiscussionReply>::empty());
        }
        while i < n
            invariant
                self.wf(),
                n == rs@.len(),
                i <= n,
                ino < old_nodes.len(),
                old_nodes[ino as int] is Discussion,
                course@ == old_nodes[ino as int]->Discussion_course@,
                discussion@ == old_nodes[ino as int]->Discussion_discussion@,
                client == old_nodes[ino as int]->Discussion_client,
                self.inos@.len() == old_nodes.len() + rp_off(rs@, i as int),
                0 <= rp_off(rs@, i as int),
                forall|k: int| 0 <= k < old_nodes.len() ==> self.inos@[k] == old_nodes[k],
                new_entries@.len() == rp_off(rs@, i as int),
                forall|k: int|
                    0 <= k < new_entries@.len() ==> (#[trigger] new_entries@[k]).1
                        < self.inos@.len() && new_entries@[k].1 >= old_nodes.len(),
                forall|t: int|
                    0 <= t < i ==> (#[trigger] new_entries@[rp_off(rs@, t)]).0@
                        == reply_entry_name(t, rs@[t]) && new_entries@[rp_off(rs@, t)].1
                        == old_nodes.len() + rp_off(rs@, t),
                forall|t: int, j: int|
                    0 <= t < i && 0 <= j < rs@[t].replies@.len() ==> (#[trigger] new_entries@[
                    rp_off(rs@, t) + 1 + j]).0@ == sub_reply_entry_name(t, j, rs@[t].replies@[j])
                        && new_entries@[rp_off(rs@, t) + 1 + j].1 == old_nodes.len() + rp_off(
                        rs@,
                        t,
                    ) + 1 + j,
                forall|t: int|
                    0 <= t < i ==> is_reply_node(
                        #[trigger] self.inos@[old_nodes.len() + rp_off(rs@, t)],
                        course,
                        discussion,
                        client,
                        rs@[t].id,
                        rs@[t].content,
                    ),
                forall|t: int, j: int|
                    0 <= t < i && 0 <= j < rs@[t].replies@.len() ==> is_reply_node(
                        #[trigger] self.inos@[old_nodes.len() + rp_off(rs@, t) + 1 + j],
                        course,
                        discussion,
                        client,
                        rs@[t].replies@[j].id,
                        rs@[t].replies@[j].content,
                    ),
            decreases n - i,
        {
            let ghost prev = self.inos@;
            let ghost prev_entries = new_entries@;
            proof {
                assert(forall|k: int|
                    0 <= k < rs@.len() ==> #[trigger] rp_measure()(rs@[k]) >= 0);
            }
            let r = &rs[i];
            let b = self.inos.len() as u64;
            self.inos.push(
                InoInfo::DiscussionReply {
                    course: course.clone(),
                    discussion: discussion.clone(),
                    id: match &r.id {
                        Some(x) => Some(x.clone()),
                        None => None,
                    },
                    client,
                    content: r.content.clone(),
                },
            );
            let name = reply_name(i as u64, None, &r.author, &r.publish_time);
            new_entries.push((name, b));
            proof {
                lemma_arena_extend(prev, self.inos@);
                assert forall|t: int| 0 <= t < self.inos@.len() implies #[trigger] node_ok(
                    self.inos@,
                    t,
                ) by {
                    if t < prev.len() {
                    }
                }
            }
            let ghost mid_nodes = self.inos@;
            let ghost mid_entries = new_entries@;
            self.push_sub_replies(&mut new_entries, i as u64, &r.replies, &course, &discussion, client);
            proof {
                lemma_seq_sum_take(rs@, rp_measure(), i as int);
                assert(rp_measure()(rs@[i as int]) == 1 + rs@[i as int].replies@.len());
                assert(rp_off(rs@, i + 1) == rp_off(rs@, i as int) + 1 + rs@[i as int].replies@.len());
                let cur = self.inos@;
                let cur_entries = new_entries@;
                // this floor's pieces start right at the previous length
                assert(old_nodes.len() + rp_off(rs@, i as int) == prev.len());
                assert forall|t: int|
                    0 <= t < i + 1 implies (#[trigger] cur_entries[rp_off(rs@, t)]).0@
                    == reply_entry_name(t, rs@[t]) && cur_entries[rp_off(rs@, t)].1
                    == old_nodes.len() + rp_off(rs@, t) by {
                    if t < i {
                        lemma_seq_sum_take_monotone(rs@, rp_measure(), t + 1, i as int);
                        lemma_seq_sum_take_monotone(rs@, rp_measure(), 0, t);
                        lemma_seq_sum_take(rs@, rp_measure(), t);
                        assert(rp_measure()(rs@[t]) == 1 + rs@[t].replies@.len());
                        assert(rp_off(rs@, t) < prev_entries.len());
                        assert(cur_entries[rp_off(rs@, t)] == mid_entries[rp_off(rs@, t)]);
                        assert(mid_entries[rp_off(rs@, t)] == prev_entries[rp_off(rs@, t)]);
                    } else {
                        assert(cur_entries[rp_off(rs@, t)] == (name, b));
                    }
                }
                assert forall|t: int, j: int|
                    0 <= t < i + 1 && 0 <= j < rs@[t].replies@.len() implies (
                #[trigger] cur_entries[rp_off(rs@, t) + 1 + j]).0@ == sub_reply_entry_name(
                    t,
                    j,
                    rs@[t].replies@[j],
                ) && cur_entries[rp_off(rs@, t) + 1 + j].1 == old_nodes.len() + rp_off(rs@, t) + 1
                    + j by {
                    if t < i {
                        lemma_seq_sum_take_monotone(rs@, rp_measure(), t + 1, i as int);
                        lemma_seq_sum_take_monotone(rs@, rp_measure(), 0, t);
                        lemma_seq_sum_take(rs@, rp_measure(), t);
                        assert(rp_measure()(rs@[t]) == 1 + rs@[t].replies@.len());
                        assert(rp_off(rs@, t) + 1 + j < prev_entries.len());
                        assert(cur_entries[rp_off(rs@, t) + 1 + j] == mid_entries[rp_off(rs@, t)
                            + 1 + j]);
                        assert(mid_entries[rp_off(rs@, t) + 1 + j] == prev_entries[rp_off(rs@, t)
                            + 1 + j]);
                    } else {
                        assert(cur_entries[mid_entries.len() + j].0@ == sub_reply_entry_name(
                            i as int,
                            j,
                            r.replies@[j],
                        ) && cur_entries[mid_entries.len() + j].1 == mid_nodes.len() + j);
                    }
                }
                assert forall|t: int|
                    0 <= t < i + 1 implies is_reply_node(
                    #[trigger] cur[old_nodes.len() + rp_off(rs@, t)],
                    course,
                    discussion,
                    client,
                    rs@[t].id,
                    rs@[t].content,
                ) by {
                    if t < i {
                        lemma_seq_sum_take_monotone(rs@, rp_measure(), t + 1, i as int);
                        lemma_seq_sum_take_monotone(rs@, rp_measure(), 0, t);
                        lemma_seq_sum_take(rs@, rp_measure(), t);
                        assert(rp_measure()(rs@[t]) == 1 + rs@[t].replies@.len());
                        assert(cur[old_nodes.len() + rp_off(rs@, t)] == mid_nodes[old_nodes.len()
                            + rp_off(rs@, t)]);
                        assert(mid_nodes[old_nodes.len() + rp_off(rs@, t)] == prev[old_nodes.len()
                            + rp_off(rs@, t)]);
                    }
                }
                assert forall|k: int|
                    0 <= k < cur_entries.len() implies (#[trigger] cur_entries[k]).1 < cur.len()
                    && cur_entries[k].1 >= old_nodes.len() by {
                    if k < prev_entries.len() {
                        assert(cur_entries[k] == mid_entries[k]);
                        assert(mid_entries[k] == prev_entries[k]);
                    } else if k == prev_entries.len() {
                        assert(cur_entries[k] == mid_entries[k]);
                    } else {
                        assert(cur_entries[mid_entries.len() + (k - mid_entries.len())].1
                            == mid_nodes.len() + (k - mid_entries.len()));
                    }
                }
                assert forall|t: int, j: int|
                    0 <= t < i + 1 && 0 <= j < rs@[t].replies@.len() implies is_reply_node(
                    #[trigger] cur[old_nodes.len() + rp_off(rs@, t) + 1 + j],
                    course,
                    discussion,
                    client,
                    rs@[t].replies@[j].id,
                    rs@[t].replies@[j].content,
                ) by {
                    if t < i {
                        lemma_seq_sum_take_monotone(rs@, rp_measure(), t + 1, i as int);
                        lemma_seq_sum_take_monotone(rs@, rp_measure(), 0, t);
                        lemma_seq_sum_take(rs@, rp_measure(), t);
                        assert(rp_measure()(rs@[t]) == 1 + rs@[t].replies@.len());
                        assert(cur[old_nodes.len() + rp_off(rs@, t) + 1 + j] == mid_nodes[
                        old_nodes.len() + rp_off(rs@, t) + 1 + j]);
                        assert(mid_nodes[old_nodes.len() + rp_off(rs@, t) + 1 + j] == prev[
                        old_nodes.len() + rp_off(rs@, t) + 1 + j]);
                    } else {
                        assert(is_reply_node(
                            cur[mid_nodes.len() + j],
                            course,
                            discussion,
                            client,
                            r.replies@[j].id,
                            r.replies@[j].content,
                        ));
                    }
                }
            }
            i = i + 1;
        }
        proof {
            assert(rs@.take(n as int) =~= rs@);
        }
        let ghost before_link = self.inos@;
        let ghost pending = new_entries@;
        let nmut = self.node_mut(ino);
        match nmut {
            InoInfo::Discussion { replies, .. } => {
                replies.append(&mut new_entries);
            },
            _ => {},
        }
        proof {
            let cur = self.inos@;
            let l0 = old_nodes[ino as int]->Discussion_replies@;
            assert(node_ok(before_link, ino as int));
            assert forall|k: int|
                0 <= k < cur[ino as int]->Discussion_replies@.len() implies (#[trigger] cur[
            ino as int]->Discussion_replies@[k]).1 < cur.len() by {
                if k < l0.len() {
                    assert(cur[ino as int]->Discussion_replies@[k] == l0[k]);
                }
            }
            assert(node_ok(cur, ino as int));
            lemma_arena_update(before_link, ino as int, cur[ino as int]);
            assert(cur == before_link.update(ino as int, cur[ino as int]));
            let l1 = cur[ino as int]->Discussion_replies@;
            assert(l1 == l0 + pending);
            assert(forall|k: int|
                0 <= k < rs@.len() ==> #[trigger] rp_measure()(rs@[k]) >= 0);
            assert forall|i2: int|
                0 <= i2 < rs@.len() implies (#[trigger] l1[l0.len() + rp_off(rs@, i2)]).0@
                == reply_entry_name(i2, rs@[i2]) && l1[l0.len() + rp_off(rs@, i2)].1
                == old_nodes.len() + rp_off(rs@, i2) by {
                lemma_seq_sum_take_monotone(rs@, rp_measure(), i2 + 1, rs@.len() as int);
                lemma_seq_sum_take_monotone(rs@, rp_measure(), 0, i2);
                lemma_seq_sum_take(rs@, rp_measure(), i2);
                assert(rp_measure()(rs@[i2]) == 1 + rs@[i2].replies@.len());
                assert(rs@.take(rs@.len() as int) =~= rs@);
                assert(rp_off(rs@, i2) < pending.len());
                assert((l0 + pending)[l0.len() + rp_off(rs@, i2)] == pending[rp_off(rs@, i2)]);
                assert(l1[l0.len() + rp_off(rs@, i2)] == pending[rp_off(rs@, i2)]);
            }
            assert forall|i2: int, j: int|
                0 <= i2 < rs@.len() && 0 <= j < rs@[i2].replies@.len() implies (#[trigger] l1[
            l0.len() + rp_off(rs@, i2) + 1 + j]).0@ == sub_reply_entry_name(
                i2,
                j,
                rs@[i2].replies@[j],
            ) && l1[l0.len() + rp_off(rs@, i2) + 1 + j].1 == old_nodes.len() + rp_off(rs@, i2) + 1
                + j by {
                lemma_seq_sum_take_monotone(rs@, rp_measure(), i2 + 1, rs@.len() as int);
                lemma_seq_sum_take_monotone(rs@, rp_measure(), 0, i2);
                lemma_seq_sum_take(rs@, rp_measure(), i2);
                assert(rp_measure()(rs@[i2]) == 1 + rs@[i2].replies@.len());
                assert(rs@.take(rs@.len() as int) =~= rs@);
                assert(rp_off(rs@, i2) + 1 + j < pending.len());
                assert((l0 + pending)[l0.len() + rp_off(rs@, i2) + 1 + j] == pending[rp_off(
                    rs@,
                    i2,
                ) + 1 + j]);
                assert(l1[l0.len() + rp_off(rs@, i2) + 1 + j] == pending[rp_off(rs@, i2) + 1 + j]);
            }
            assert forall|i2: int|
                0 <= i2 < rs@.len() implies is_reply_node(
                #[trigger] cur[old_nodes.len() + rp_off(rs@, i2)],
                course,
                discussion,
                client,
                rs@[i2].id,
                rs@[i2].content,
            ) by {
                lemma_seq_sum_take_monotone(rs@, rp_measure(), i2 + 1, rs@.len() as int);
                lemma_seq_sum_take_monotone(rs@, rp_measure(), 0, i2);
                lemma_seq_sum_take(rs@, rp_measure(), i2);
                assert(rp_measure()(rs@[i2]) == 1 + rs@[i2].replies@.len());
                assert(rs@.take(rs@.len() as int) =~= rs@);
                assert(cur[old_nodes.len() + rp_off(rs@, i2)] == before_link[old_nodes.len()
                    + rp_off(rs@, i2)]);
            }
            assert forall|i2: int, j: int|
                0 <= i2 < rs@.len() && 0 <= j < rs@[i2].replies@.len() implies is_reply_node(
                #[trigger] cur[old_nodes.len() + rp_off(rs@, i2) + 1 + j],
                course,
                discussion,
                client,
                rs@[i2].replies@[j].id,
                rs@[i2].replies@[j].content,
            ) by {
                lemma_seq_sum_take_monotone(rs@, rp_measure(), i2 + 1, rs@.len() as int);
                lemma_seq_sum_take_monotone(rs@, rp_measure(), 0, i2);
                lemma_seq_sum_take(rs@, rp_measure(), i2);
                assert(rp_measure()(rs@[i2]) == 1 + rs@[i2].replies@.len());
                assert(rs@.take(rs@.len() as int) =~= rs@);
                assert(cur[old_nodes.len() + rp_off(rs@, i2) + 1 + j] == before_link[
                old_nodes.len() + rp_off(rs@, i2) + 1 + j]);
            }
            assert(discussion_populated(old_nodes, cur, ino, rs@));
        }
    }
}


/// The first homework of a fetched list with the given identifier, if
/// any.
pub open spec fn find_homework(hs: Seq<Homework>, id: Seq<char>) -> Option<int>
    decreases hs.len(),
{
    if hs.len() == 0 {
        None
    } else if hs[0].id@ == id {
        Some(0int)
    } else {
        match find_homework(hs.drop_first(), id) {
            Some(i) => Some(i + 1),
            None => None,
        }
    }
}

pub proof fn lemma_find_homework(hs: Seq<Homework>, id: Seq<char>)
    ensures
        find_homework(hs, id) matches Some(i) ==> 0 <= i < hs.len() && hs[i].id@ == id && (forall|
            j: int,
        | 0 <= j < i ==> (#[trigger] hs[j]).id@ != id),
        find_homework(hs, id) is None ==> forall|j: int|
            0 <= j < hs.len() ==> (#[trigger] hs[j]).id@ != id,
    decreases hs.len(),
{
    if hs.len() != 0 && hs[0].id@ != id {
        lemma_find_homework(hs.drop_first(), id);
        assert(forall|j: int| 1 <= j < hs.len() ==> (#[trigger] hs[j]) == hs.drop_first()[j - 1]);
    }
}

impl crate::fs::LearnFS {
    /// A refresh write on a homework item: the freshly fetched list is
    /// searched for the item's identifier.  When found, the item keeps its
    /// first two children — the submit and refresh actions — and replaces
    /// the rest with freshly built detail contents; the superseded content
    /// inodes are abandoned, never reused.  When the item is gone from the
    /// remote list, the refresh is silently a no-op.  A target that is not
    /// an item is a construction defect.
    #[verifier::rlimit(100)]
    #[verifier::spinoff_prover]
    pub fn refresh_homework(
        &mut self,
        parent: u64,
        homework: &str,
        hs: &Vec<Homework>,
        client: u64,
    ) -> (r: Result<(), crate::fs::FsError>)
        requires
            old(self).wf(),
            parent < old(self).inos@.len(),
            old(self).inos@.len() + 16 <= u64::MAX,
        ensures
            final(self).wf(),
            !(old(self).inos@[parent as int] is Item) ==> r == Err::<(), crate::fs::FsError>(
                crate::fs::FsError::IoError,
            ) && *final(self) == *old(self),
            old(self).inos@[parent as int] is Item ==> r is Ok && (match find_homework(
                hs@,
                homework@,
            ) {
                None => *final(self) == *old(self),
                Some(idx) => ({
                    let h = hs@[idx];
                    let f = homework_fields(h, client);
                    let base = old(self).inos@.len() as int;
                    let l0 = old(self).inos@[parent as int]->Item_0@;
                    let l1 = final(self).inos@[parent as int]->Item_0@;
                    let kept = if l0.len() >= 2 {
                        2int
                    } else {
                        l0.len() as int
                    };
                    &&& final(self).inos@.len() == base + f.len()
                    &&& forall|j: int|
                        0 <= j < base && j != parent ==> final(self).inos@[j] == old(
                            self,
                        ).inos@[j]
                    &&& final(self).inos@[parent as int] is Item
                    &&& l1.len() == kept + f.len()
                    &&& forall|k: int| 0 <= k < kept ==> l1[k] == l0[k]
                    &&& forall|k: int|
                        0 <= k < f.len() ==> (#[trigger] l1[kept + k]).0@ == f[k].0 && l1[kept
                            + k].1 == base + k
                    &&& forall|k: int|
                        0 <= k < f.len() ==> ((#[trigger] final(self).inos@[base + k]) matches
                        InoInfo::Content(c) && content_matches(c, f[k].1))
                }),
            }),
    {
        let ghost old_nodes = self.inos@;
        let is_item = match self.node(parent) {
            InoInfo::Item(_) => true,
            _ => false,
        };
        if !is_item {
            return Err(crate::fs::FsError::IoError);
        }
        let key: String = homework.to_owned();
        let n = hs.len();
        let mut idx: usize = 0;
        let mut found = false;
        proof {
            lemma_find_homework(hs@, homework@);
        }
        while idx < n && !found
            invariant
                n == hs@.len(),
                idx <= n,
                key@ == homework@,
                found ==> idx < n && find_homework(hs@, homework@) == Some(idx as int),
                !found ==> forall|j: int| 0 <= j < idx ==> (#[trigger] hs@[j]).id@ != homework@,
                find_homework(hs@, homework@) matches Some(i) ==> 0 <= i < n && hs@[i].id@
                    == homework@ && (forall|j: int| 0 <= j < i ==> (#[trigger] hs@[j]).id@
                    != homework@),
                find_homework(hs@, homework@) is None ==> forall|j: int|
                    0 <= j < n ==> (#[trigger] hs@[j]).id@ != homework@,
            decreases n - idx, (if found { 0int } else { 1int }),
        {
            if hs[idx].id == key {
                found = true;
                proof {
                    if find_homework(hs@, homework@) is None {
                        assert(hs@[idx as int].id@ != homework@);
                    }
                    let i = find_homework(hs@, homework@).unwrap();
                    if i < idx {
                        assert(hs@[i].id@ != homework@);
                    }
                    if i > idx {
                        assert(hs@[idx as int].id@ != homework@);
                    }
                }
            } else {
                idx = idx + 1;
            }
        }
        if !found {
            proof {
                if find_homework(hs@, homework@) is Some {
                    let i = find_homework(hs@, homework@).unwrap();
                    assert(hs@[i].id@ != homework@);
                }
            }
            return Ok(());
        }
        let h = &hs[idx];
        proof {
            lemma_homework_fields_len(*h, client);
        }
        let ghost fields = homework_fields(*h, client);
        let new_ino = self.inos.len() as u64;
        let (m, cs) = homework_content(h, new_ino, client, true);
        let ghost m0 = m@;
        let ghost cs0 = cs@;
        self.push_contents(cs);
        let ghost after_push = self.inos@;
        let mut m = m;
        let nmut = self.node_mut(parent);
        match nmut {
            InoInfo::Item(entries) => {
                entries.truncate(2);
                entries.append(&mut m);
            },
            _ => {},
        }
        proof {
            let cur = self.inos@;
            let l0 = old_nodes[parent as int]->Item_0@;
            let l1 = cur[parent as int]->Item_0@;
            let kept: int = if l0.len() >= 2 {
                2int
            } else {
                l0.len() as int
            };
            lemma_arena_extend(old_nodes, after_push);
            assert forall|t: int| 0 <= t < after_push.len() implies #[trigger] node_ok(
                after_push,
                t,
            ) by {
                if t >= old_nodes.len() {
                    assert(after_push[old_nodes.len() + (t - old_nodes.len())]
                        == InoInfo::Content(cs0[t - old_nodes.len()]));
                }
            }
            assert(builder_ok(m0, cs0, fields, new_ino as int, 0));
            assert forall|k: int|
                0 <= k < fields.len() implies ((#[trigger] cur[new_ino + k]) matches
            InoInfo::Content(c) && content_matches(c, fields[k].1)) by {
                assert(after_push[old_nodes.len() + k] == InoInfo::Content(cs0[k]));
                assert(m0[0 + k].1 == new_ino + 0 + k);
                assert(content_matches(cs0[k], fields[k].1));
                assert(cur[new_ino + k] == after_push[new_ino + k]);
            }
            assert(l1 =~= l0.subrange(0, kept) + m0);
            assert forall|k: int|
                0 <= k < fields.len() implies (#[trigger] l1[kept + k]).0@ == fields[k].0
                && l1[kept + k].1 == old_nodes.len() + k by {
                assert(l1[kept + k] == m0[k]);
                assert(m0[0 + k].0@ == fields[k].0);
                assert(m0[0 + k].1 == new_ino + 0 + k);
            }
            assert(node_ok(after_push, parent as int));
            assert forall|j: int| 0 <= j < l1.len() implies (#[trigger] l1[j]).1 < cur.len() by {
                if j < kept {
                    assert(l1[j] == l0[j]);
                    assert(map_ok(l0, after_push.len() as int));
                } else {
                    assert(l1[j] == m0[j - kept]);
                    assert(m0[0 + (j - kept)].1 == new_ino + 0 + (j - kept));
                }
            }
            assert(node_ok(cur, parent as int));
            lemma_arena_update(after_push, parent as int, cur[parent as int]);
            assert(cur == after_push.update(parent as int, cur[parent as int]));
        }
        Ok(())
    }
}


/// The season suffix of a semester label, by the identifier's type digit.
pub open spec fn cn_suffix(c: char) -> Seq<char> {
    if c == '1' {
        "秋"@
    } else if c == '2' {
        "春"@
    } else {
        "夏"@
    }
}

/// A semester's listing label: the identifier with its type digit
/// replaced by the season.
pub open spec fn semester_label(s: Seq<char>) -> Seq<char> {
    s.drop_last() + cn_suffix(s.last())
}

/// How many arena slots one semester's subtree takes: five per course
/// (the course and its four category lists) and the semester node.
pub open spec fn sem_measure() -> spec_fn(SemesterCourses) -> int {
    |s: SemesterCourses| 5 * s.courses@.len() as int + 1
}

/// Where the `k`-th semester's region starts.
pub open spec fn sem_start(base: int, sems: Seq<SemesterCourses>, k: int) -> int {
    base + seq_sum(sems.take(k), sem_measure())
}

/// One course with its four empty category lists right after it.
pub open spec fn is_course_block(nodes: Seq<InoInfo>, b: int, id: String, client: u64) -> bool {
    &&& 0 <= b
    &&& b + 5 <= nodes.len()
    &&& nodes[b] matches InoInfo::Course { id: i, client: cl, fetched } && i@ == id@ && cl
        == client && fetched == false
    &&& forall|j: int|
        1 <= j <= 4 ==> ((#[trigger] nodes[b + j]) matches InoInfo::ItemList(m) && m@.len() == 0)
}

/// One semester's region: its courses' blocks, five slots each, then the
/// semester node listing the courses by name, in order.
pub open spec fn semester_block_at(
    nodes: Seq<InoInfo>,
    b: int,
    s: SemesterCourses,
    client: u64,
) -> bool {
    let nc = s.courses@.len() as int;
    &&& 0 <= b
    &&& b + 5 * nc + 1 <= nodes.len()
    &&& forall|c: int| 0 <= c < nc ==> is_course_block(nodes, b + 5 * c, s.courses@[c].id, client)
    &&& nodes[b + 5 * nc] matches InoInfo::Semester { courses: m } && m@.len() == nc && (forall|
        c: int,
    |
        0 <= c < nc ==> (#[trigger] m@[c]).0@ == s.courses@[c].name@ && m@[c].1 == b + 5 * c)
}

/// The whole subtree a successful login builds: one region per semester
/// and the user node listing the semesters by label, in order.  No course
/// content is fetched yet: every category list starts empty.
pub open spec fn user_subtree(
    nodes: Seq<InoInfo>,
    base: int,
    sems: Seq<SemesterCourses>,
    client: u64,
) -> bool {
    let u = base + seq_sum(sems, sem_measure());
    &&& nodes[u] matches InoInfo::User { semesters: m } && m@.len() == sems.len() && (forall|
        k: int,
    |
        0 <= k < sems.len() ==> (#[trigger] m@[k]).0@ == semester_label(sems[k].id@) && m@[k].1
            == sem_start(base, sems, k) + 5 * sems[k].courses@.len())
    &&& forall|k: int|
        0 <= k < sems.len() ==> semester_block_at(nodes, sem_start(base, sems, k), sems[k], client)
}

pub proof fn lemma_semester_block_preserved(
    n1: Seq<InoInfo>,
    n2: Seq<InoInfo>,
    b: int,
    s: SemesterCourses,
    client: u64,
)
    requires
        semester_block_at(n1, b, s, client),
        n1.len() <= n2.len(),
        forall|i: int| b <= i < b + 5 * s.courses@.len() + 1 ==> n2[i] == n1[i],
    ensures
        semester_block_at(n2, b, s, client),
{
    let nc = s.courses@.len() as int;
    assert(n2[b + 5 * nc] == n1[b + 5 * nc]);
    assert forall|c: int| 0 <= c < nc implies is_course_block(
        n2,
        b + 5 * c,
        s.courses@[c].id,
        client,
    ) by {
        assert(is_course_block(n1, b + 5 * c, s.courses@[c].id, client));
        assert(n2[b + 5 * c] == n1[b + 5 * c]);
        assert forall|j: int|
            1 <= j <= 4 implies ((#[trigger] n2[b + 5 * c + j]) matches InoInfo::ItemList(m)
            && m@.len() == 0) by {
            assert(n2[b + 5 * c + j] == n1[b + 5 * c + j]);
        }
    }
}

/// The label of one semester identifier, with the Chinese season name.
fn semester_label_of(id: &String) -> (r: String)
    requires
        crate::types::valid_semester_id(id@),
    ensures
        r@ == semester_label(id@),
{
    let st = id.as_str();
    let n = st.unicode_len();
    let head = st.substring_char(0, n - 1);
    let last = st.get_char(n - 1);
    let mut s = head.to_owned();
    if last == '1' {
        s.append("秋");
    } else if last == '2' {
        s.append("春");
    } else {
        s.append("夏");
    }
    proof {
        assert(id@.drop_last() =~= id@.subrange(0, id@.len() - 1));
    }
    s
}

impl crate::fs::LearnFS {
    /// Appends one course and its four empty category lists.
    pub(crate) fn push_course_block(&mut self, id: &String, client: u64) -> (b: u64)
        requires
            old(self).wf(),
        ensures
            final(self).wf(),
            b == old(self).inos@.len(),
            final(self).inos@.len() == old(self).inos@.len() + 5,
            forall|k: int|
                0 <= k < old(self).inos@.len() ==> final(self).inos@[k] == old(self).inos@[k],
            is_course_block(final(self).inos@, b as int, *id, client),
    {
        let ghost old_nodes = self.inos@;
        let b = self.inos.len() as u64;
        self.inos.push(InoInfo::Course { id: id.clone(), client, fetched: false });
        self.inos.push(InoInfo::ItemList(Vec::new()));
        self.inos.push(InoInfo::ItemList(Vec::new()));
        self.inos.push(InoInfo::ItemList(Vec::new()));
        self.inos.push(InoInfo::ItemList(Vec::new()));
        proof {
            let new_nodes = self.inos@;
            lemma_arena_extend(old_nodes, new_nodes);
            assert(is_course_block(new_nodes, b as int, *id, client)) by {
                assert(new_nodes[b as int + 1] is ItemList);
                assert(new_nodes[b as int + 2] is ItemList);
                assert(new_nodes[b as int + 3] is ItemList);
                assert(new_nodes[b as int + 4] is ItemList);
            }
            assert forall|i: int| 0 <= i < new_nodes.len() implies #[trigger] node_ok(
                new_nodes,
                i,
            ) by {
                if i < old_nodes.len() {
                } else if i == b {
                    assert(new_nodes[i + 1] is ItemList && new_nodes[i + 2] is ItemList
                        && new_nodes[i + 3] is ItemList && new_nodes[i + 4] is ItemList);
                }
            }
        }
        b
    }

    /// A mkdir under the root logs a user in.  The caller performs the
    /// login and the semester and course fetches; the outcome arrives as
    /// the event: `None` for a failed login, which leaves the filesystem
    /// exactly as it was, or the fetched semesters with their courses,
    /// which build the user's subtree with every category list empty
    /// until first listed.  A mkdir anywhere else is refused.
    #[verifier::rlimit(100)]
    #[verifier::spinoff_prover]
    pub fn mkdir(&mut self, parent: u64, name: &str, login: Option<(u64, Vec<SemesterCourses>)>)
        -> (r: Result<crate::fs::FileAttr, crate::fs::FsError>)
        requires
            old(self).wf(),
            parent < old(self).inos@.len(),
            login matches Some(l) ==> forall|k: int|
                0 <= k < l.1@.len() ==> crate::types::valid_semester_id(
                    (#[trigger] l.1@[k]).id@,
                ),
        ensures
            final(self).wf(),
            !(old(self).inos@[parent as int] is Root) ==> r == Err::<
                crate::fs::FileAttr,
                crate::fs::FsError,
            >(crate::fs::FsError::NotPermitted) && *final(self) == *old(self),
            old(self).inos@[parent as int] is Root && login is None ==> r == Err::<
                crate::fs::FileAttr,
                crate::fs::FsError,
            >(crate::fs::FsError::IoError) && *final(self) == *old(self),
            old(self).inos@[parent as int] is Root ==> (login matches Some(l) ==> ({
                let client = l.0;
                let sems = l.1@;
                let base = old(self).inos@.len() as int;
                let u = base + seq_sum(sems, sem_measure());
                let users0 = old(self).inos@[parent as int]->Root_users@;
                let users1 = final(self).inos@[parent as int]->Root_users@;
                &&& r == Ok::<crate::fs::FileAttr, crate::fs::FsError>(
                    crate::fs::spec_dir_attr((u) as u64),
                )
                &&& final(self).inos@.len() == u + 1
                &&& forall|j: int|
                    0 <= j < base && j != parent ==> final(self).inos@[j] == old(self).inos@[j]
                &&& final(self).inos@[parent as int] is Root
                &&& users1.len() == users0.len() + 1
                &&& forall|k: int| 0 <= k < users0.len() ==> users1[k] == users0[k]
                &&& users1.last().0@ == name@
                &&& users1.last().1 == u
                &&& user_subtree(final(self).inos@, base, sems, client)
            })),
    {
        let ghost old_nodes = self.inos@;
        let is_root = match self.node(parent) {
            InoInfo::Root { .. } => true,
            _ => false,
        };
        if !is_root {
            return Err(crate::fs::FsError::NotPermitted);
        }
        let (client, sems) = match login {
            Some(x) => x,
            None => {
                return Err(crate::fs::FsError::IoError);
            },
        };
        let ghost base = self.inos@.len() as int;
        let mut sem_entries: NameMap = Vec::new();
        let n = sems.len();
        let mut k: usize = 0;
        proof {
            assert(sems@.take(0) =~= Seq::<SemesterCourses>::empty());
        }
        while k < n
            invariant
                self.wf(),
                n == sems@.len(),
                k <= n,
                base == old_nodes.len(),
                self.inos@.len() == sem_start(base, sems@, k as int),
                0 <= seq_sum(sems@.take(k as int), sem_measure()),
                forall|j: int| 0 <= j < base ==> self.inos@[j] == old_nodes[j],
                sem_entries@.len() == k,
                forall|t: int|
                    0 <= t < k ==> (#[trigger] sem_entries@[t]).0@ == semester_label(
                        sems@[t].id@,
                    ) && sem_entries@[t].1 == sem_start(base, sems@, t) + 5
                        * sems@[t].courses@.len(),
                forall|t: int|
                    0 <= t < k ==> semester_block_at(
                        self.inos@,
                        sem_start(base, sems@, t),
                        sems@[t],
                        client,
                    ),
                forall|t: int|
                    0 <= t < n ==> crate::types::valid_semester_id((#[trigger] sems@[t]).id@),
            decreases n - k,
        {
            let ghost prev = self.inos@;
            let s = &sems[k];
            let nc = s.courses.len();
            let mut cmap: NameMap = Vec::new();
            let mut c: usize = 0;
            while c < nc
                invariant
                    self.wf(),
                    nc == s.courses@.len(),
                    c <= nc,
                    self.inos@.len() == prev.len() + 5 * c,
                    forall|j: int| 0 <= j < prev.len() ==> self.inos@[j] == prev[j],
                    cmap@.len() == c,
                    forall|t: int|
                        0 <= t < c ==> (#[trigger] cmap@[t]).0@ == s.courses@[t].name@
                            && cmap@[t].1 == prev.len() + 5 * t,
                    forall|t: int|
                        0 <= t < c ==> is_course_block(
                            self.inos@,
                            prev.len() + 5 * t,
                            s.courses@[t].id,
                            client,
                        ),
                decreases nc - c,
            {
                let ghost mid = self.inos@;
                let cb = self.push_course_block(&s.courses[c].id, client);
                cmap.push((s.courses[c].name.clone(), cb));
                proof {
                    let cur = self.inos@;
                    assert forall|t: int|
                        0 <= t < c + 1 implies is_course_block(
                        cur,
                        prev.len() + 5 * t,
                        s.courses@[t].id,
                        client,
                    ) by {
                        if t < c {
                            assert(is_course_block(mid, prev.len() + 5 * t, s.courses@[t].id, client));
                            assert(cur[prev.len() + 5 * t] == mid[prev.len() + 5 * t]);
                            assert forall|j: int|
                                1 <= j <= 4 implies ((#[trigger] cur[prev.len() + 5 * t + j])
                            matches InoInfo::ItemList(mm) && mm@.len() == 0) by {
                                assert(cur[prev.len() + 5 * t + j] == mid[prev.len() + 5 * t + j]);
                            }
                        }
                    }
                }
                c = c + 1;
            }
            let sb = self.inos.len() as u64;
            let ghost before_sem = self.inos@;
            self.inos.push(InoInfo::Semester { courses: cmap });
            let label = semester_label_of(&s.id);
            sem_entries.push((label, sb));
            proof {
                let cur = self.inos@;
                lemma_arena_extend(before_sem, cur);
                assert forall|i: int| 0 <= i < cur.len() implies #[trigger] node_ok(cur, i) by {
                    if i < before_sem.len() {
                    } else {
                        assert forall|j: int|
                            0 <= j < cur[i]->Semester_courses@.len() implies (#[trigger] cur[
                        i]->Semester_courses@[j]).1 < cur.len() by {
                            assert(cur[i]->Semester_courses@[j].1 == prev.len() + 5 * j);
                        }
                    }
                }
                lemma_seq_sum_take(sems@, sem_measure(), k as int);
                assert(sem_measure()(sems@[k as int]) == 5 * sems@[k as int].courses@.len() + 1);
                assert(semester_block_at(cur, prev.len() as int, sems@[k as int], client)) by {
                    assert forall|t: int|
                        0 <= t < nc implies is_course_block(
                        cur,
                        prev.len() + 5 * t,
                        s.courses@[t].id,
                        client,
                    ) by {
                        assert(is_course_block(before_sem, prev.len() + 5 * t, s.courses@[t].id, client));
                        assert(cur[prev.len() + 5 * t] == before_sem[prev.len() + 5 * t]);
                        assert forall|j: int|
                            1 <= j <= 4 implies ((#[trigger] cur[prev.len() + 5 * t + j]) matches
                        InoInfo::ItemList(mm) && mm@.len() == 0) by {
                            assert(cur[prev.len() + 5 * t + j] == before_sem[prev.len() + 5 * t
                                + j]);
                        }
                    }
                }
                assert forall|t: int|
                    0 <= t < k + 1 implies semester_block_at(
                    cur,
                    sem_start(base, sems@, t),
                    sems@[t],
                    client,
                ) by {
                    if t < k {
                        assert(semester_block_at(prev, sem_start(base, sems@, t), sems@[t], client));
                        assert(forall|e: int|
                            0 <= e < sems@.len() ==> #[trigger] sem_measure()(sems@[e]) >= 0);
                        lemma_seq_sum_take_monotone(sems@, sem_measure(), t + 1, k as int);
                        lemma_seq_sum_take_monotone(sems@, sem_measure(), 0, t);
                        lemma_seq_sum_take(sems@, sem_measure(), t);
                        assert(sem_measure()(sems@[t]) == 5 * sems@[t].courses@.len() + 1);
                        assert forall|i: int|
                            sem_start(base, sems@, t) <= i < sem_start(base, sems@, t) + 5
                                * sems@[t].courses@.len() + 1 implies cur[i] == prev[i] by {}
                        lemma_semester_block_preserved(
                            prev,
                            cur,
                            sem_start(base, sems@, t),
                            sems@[t],
                            client,
                        );
                    }
                }
            }
            k = k + 1;
        }
        proof {
            assert(sems@.take(n as int) =~= sems@);
        }
        let ghost before_user = self.inos@;
        let ub = self.inos.len() as u64;
        self.inos.push(InoInfo::User { semesters: sem_entries });
        proof {
            let cur = self.inos@;
            lemma_arena_extend(before_user, cur);
            assert forall|i: int| 0 <= i < cur.len() implies #[trigger] node_ok(cur, i) by {
                if i < before_user.len() {
                } else {
                    assert forall|j: int|
                        0 <= j < cur[i]->User_semesters@.len() implies (#[trigger] cur[
                    i]->User_semesters@[j]).1 < cur.len() by {
                        assert(forall|e: int|
                            0 <= e < sems@.len() ==> #[trigger] sem_measure()(sems@[e]) >= 0);
                        lemma_seq_sum_take_monotone(sems@, sem_measure(), j + 1, sems@.len() as int);
                        lemma_seq_sum_take_monotone(sems@, sem_measure(), 0, j);
                        lemma_seq_sum_take(sems@, sem_measure(), j);
                        assert(sem_measure()(sems@[j]) == 5 * sems@[j].courses@.len() + 1);
                        assert(sems@.take(sems@.len() as int) =~= sems@);
                    }
                }
            }
        }
        let ghost before_link = self.inos@;
        let nmut = self.node_mut(parent);
        match nmut {
            InoInfo::Root { users } => {
                users.push((name.to_owned(), ub));
            },
            _ => {},
        }
        proof {
            let cur = self.inos@;
            let users0 = old_nodes[parent as int]->Root_users@;
            assert(node_ok(before_link, parent as int));
            assert forall|j: int|
                0 <= j < cur[parent as int]->Root_users@.len() implies (#[trigger] cur[
            parent as int]->Root_users@[j]).1 < cur.len() by {
                if j < users0.len() {
                    assert(cur[parent as int]->Root_users@[j] == users0[j]);
                }
            }
            assert(node_ok(cur, parent as int));
            lemma_arena_update(before_link, parent as int, cur[parent as int]);
            assert(cur == before_link.update(parent as int, cur[parent as int]));
            // the finished subtree survives the root update
            assert forall|t: int|
                0 <= t < sems@.len() implies semester_block_at(
                cur,
                sem_start(base, sems@, t),
                sems@[t],
                client,
            ) by {
                assert(semester_block_at(before_user, sem_start(base, sems@, t), sems@[t], client));
                assert(forall|e: int|
                    0 <= e < sems@.len() ==> #[trigger] sem_measure()(sems@[e]) >= 0);
                lemma_seq_sum_take_monotone(sems@, sem_measure(), t + 1, sems@.len() as int);
                lemma_seq_sum_take_monotone(sems@, sem_measure(), 0, t);
                lemma_seq_sum_take(sems@, sem_measure(), t);
                assert(sem_measure()(sems@[t]) == 5 * sems@[t].courses@.len() + 1);
                assert(sems@.take(sems@.len() as int) =~= sems@);
                assert forall|i: int|
                    sem_start(base, sems@, t) <= i < sem_start(base, sems@, t) + 5
                        * sems@[t].courses@.len() + 1 implies cur[i] == before_user[i] by {}
                lemma_semester_block_preserved(
                    before_user,
                    cur,
                    sem_start(base, sems@, t),
                    sems@[t],
                    client,
                );
            }
            assert(cur[ub as int] == before_link[ub as int]);
            assert(user_subtree(cur, base, sems@, client));
        }
        Ok(crate::fs::dir_attr(ub))
    }
}

} // verus!

//! The typed records that the remote service returns.
//!
//! The remote client lives outside the library; it parses the service's
//! responses into these records and hands them in as plain values.  Times
//! and grades arrive already rendered as display strings: the filesystem
//! exposes them as file content, never as metadata, so their only use here
//! is verbatim.

use vstd::prelude::*;
use vstd::string::{StrSliceExecFns, StringExecFns};

verus! {

/// One course of one semester.
pub struct Course {
    pub id: String,
    pub name: String,
    pub english_name: String,
    pub teacher_name: String,
    /// Normally the digits of an integer, but not always; kept as text.
    pub teacher_number: String,
    pub course_number: String,
    pub course_index: u32,
    pub time_location: Vec<String>,
}

impl Course {
    pub fn url(&self) -> (r: String)
        ensures
            r@ == crate::urls::course_url_str(self.id@),
    {
        crate::urls::COURSE_URL(self.id.as_str())
    }
}

/// One notification of a course.
pub struct Notification {
    pub course_id: String,
    pub id: String,
    pub title: String,
    pub content: String,
    pub read: bool,
    pub important: bool,
    pub publish_time: String,
    pub publisher: String,
    pub attachment_name: Option<String>,
    pub attachment_url: Option<String>,
}

impl Notification {
    pub fn detail_url(&self) -> (r: String)
        ensures
            r@ == crate::urls::notification_detail_str(self.id@, self.course_id@),
    {
        crate::urls::NOTIFICATION_DETAIL(self.id.as_str(), self.course_id.as_str())
    }
}

/// One file of a course.
pub struct File {
    pub id: String,
    pub title: String,
    pub description: String,
    pub raw_size: u32,
    /// The size already rendered for humans, as the service reports it.
    pub size: String,
    pub upload_time: String,
    pub new: bool,
    pub important: bool,
    pub visit_count: u32,
    pub download_count: u32,
    pub file_type: String,
}

impl File {
    pub fn download_url(&self) -> (r: String)
        ensures
            r@ == crate::urls::file_download_str(self.id@),
    {
        crate::urls::FILE_DOWNLOAD(self.id.as_str())
    }
}

/// The detail page of one homework: its description and up to three
/// attachments, each a display name paired with a download address.
pub struct HomeworkDetail {
    pub description: String,
    pub attachment_name_url: Option<(String, String)>,
    pub submit_attachment_name_url: Option<(String, String)>,
    pub grade_attachment_name_url: Option<(String, String)>,
}

/// One homework of a course.  The grade, where present, arrives already
/// rendered as text (the service reports a fractional score).
pub struct Homework {
    pub course_id: String,
    pub id: String,
    pub student_homework_id: String,
    pub title: String,
    pub assign_time: String,
    pub deadline: String,
    pub submit_time: Option<String>,
    pub submit_content: Option<String>,
    pub grade: Option<String>,
    pub grade_time: Option<String>,
    pub grader_name: Option<String>,
    pub grade_content: Option<String>,
    pub detail: HomeworkDetail,
}

impl Homework {
    pub fn detail_url(&self) -> (r: String)
        ensures
            r@ == crate::urls::homework_detail_str(
                self.course_id@,
                self.id@,
                self.student_homework_id@,
            ),
    {
        crate::urls::HOMEWORK_DETAIL(
            self.course_id.as_str(),
            self.id.as_str(),
            self.student_homework_id.as_str(),
        )
    }

    /// The page that a browser's submit button opens; not used when submitting.
    pub fn submit_page(&self) -> (r: String)
        ensures
            r@ == crate::urls::homework_submit_page_str(self.course_id@, self.student_homework_id@),
    {
        crate::urls::HOMEWORK_SUBMIT_PAGE(self.course_id.as_str(), self.student_homework_id.as_str())
    }
}

/// One discussion thread of a course's board.
pub struct Discussion {
    pub id: String,
    pub board_id: String,
    pub title: String,
    pub publisher_name: String,
    pub publish_time: String,
    pub last_replier_name: Option<String>,
    pub last_reply_time: Option<String>,
    pub visit_count: u32,
    pub reply_count: u32,
}

/// A reply nested under a top-level discussion reply.
pub struct DiscussionSubReply {
    pub id: Option<String>,
    pub author: String,
    pub publish_time: String,
    pub content: String,
}

/// One top-level reply of a discussion thread.  The first reply of a thread
/// is the opening post; it cannot be replied to or deleted and has no id.
pub struct DiscussionReply {
    pub id: Option<String>,
    pub author: String,
    pub publish_time: String,
    pub content: String,
    pub replies: Vec<DiscussionSubReply>,
}

/// One semester together with its course list, as a fresh login fetches them.
pub struct SemesterCourses {
    pub id: String,
    pub courses: Vec<Course>,
}

/// The suffix that `semester_desc` appends for a semester type digit.
pub open spec fn semester_suffix(c: char) -> Seq<char> {
    if c == '1' {
        "fall"@
    } else if c == '2' {
        "spring"@
    } else {
        "summer"@
    }
}

/// A semester identifier ends in its type digit: 1 for fall, 2 for spring,
/// 3 for summer.  Any other ending is a malformed identifier and rejected.
pub open spec fn valid_semester_id(s: Seq<char>) -> bool {
    s.len() >= 1 && (s.last() == '1' || s.last() == '2' || s.last() == '3')
}

/// The human-readable description of a semester identifier: the identifier
/// with its final type digit replaced by the season's name.
pub fn semester_desc(semester: &str) -> (r: String)
    requires
        valid_semester_id(semester@),
    ensures
        r@ == semester@.drop_last() + semester_suffix(semester@.last()),
{
    let n = semester.unicode_len();
    let head = semester.substring_char(0, n - 1);
    let last = semester.get_char(n - 1);
    let mut s = head.to_owned();
    if last == '1' {
        s.append("fall");
    } else if last == '2' {
        s.append("spring");
    } else {
        s.append("summer");
    }
    proof {
        assert(semester@.drop_last() =~= semester@.subrange(0, semester@.len() - 1));
    }
    s
}

} // verus!

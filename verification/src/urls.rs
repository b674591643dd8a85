//! The addresses of the remote service, one builder per endpoint.
//!
//! Each builder returns the endpoint's address with the caller's identifiers
//! spliced in; the contract pins the exact character sequence.

use vstd::prelude::*;
use vstd::string::StringExecFns;

verus! {

pub open spec fn auth_roam_str(ticket: Seq<char>) -> Seq<char> {
    "https://learn.tsinghua.edu.cn/b/j_spring_security_thauth_roaming_entry?ticket="@ + ticket
}

pub fn AUTH_ROAM(ticket: &str) -> (r: String)
    ensures
        r@ == auth_roam_str(ticket@),
{
    let mut s = "https://learn.tsinghua.edu.cn/b/j_spring_security_thauth_roaming_entry?ticket=".to_owned();
    s.append(ticket);
    s
}

pub open spec fn course_list_str(semester: Seq<char>) -> Seq<char> {
    "https://learn.tsinghua.edu.cn/b/wlxt/kc/v_wlkc_xs_xkb_kcb_extend/student/loadCourseBySemesterId/"@
        + semester
}

pub fn COURSE_LIST(semester: &str) -> (r: String)
    ensures
        r@ == course_list_str(semester@),
{
    let mut s =
        "https://learn.tsinghua.edu.cn/b/wlxt/kc/v_wlkc_xs_xkb_kcb_extend/student/loadCourseBySemesterId/".to_owned();
    s.append(semester);
    s
}

pub open spec fn course_url_str(course: Seq<char>) -> Seq<char> {
    "https://learn.tsinghua.edu.cn/f/wlxt/index/course/student/course?wlkcid="@ + course
}

pub fn COURSE_URL(course: &str) -> (r: String)
    ensures
        r@ == course_url_str(course@),
{
    let mut s = "https://learn.tsinghua.edu.cn/f/wlxt/index/course/student/course?wlkcid=".to_owned();
    s.append(course);
    s
}

pub open spec fn course_time_location_str(course: Seq<char>) -> Seq<char> {
    "https://learn.tsinghua.edu.cn/b/kc/v_wlkc_xk_sjddb/detail?id="@ + course
}

pub fn COURSE_TIME_LOCATION(course: &str) -> (r: String)
    ensures
        r@ == course_time_location_str(course@),
{
    let mut s = "https://learn.tsinghua.edu.cn/b/kc/v_wlkc_xk_sjddb/detail?id=".to_owned();
    s.append(course);
    s
}

pub open spec fn file_list_str(course: Seq<char>) -> Seq<char> {
    "https://learn.tsinghua.edu.cn/b/wlxt/kj/wlkc_kjxxb/student/kjxxbByWlkcidAndSizeForStudent?wlkcid="@
        + course + "&size=200"@
}

pub fn FILE_LIST(course: &str) -> (r: String)
    ensures
        r@ == file_list_str(course@),
{
    let mut s =
        "https://learn.tsinghua.edu.cn/b/wlxt/kj/wlkc_kjxxb/student/kjxxbByWlkcidAndSizeForStudent?wlkcid=".to_owned();
    s.append(course);
    s.append("&size=200");
    s
}

pub open spec fn file_download_str(file: Seq<char>) -> Seq<char> {
    "https://learn.tsinghua.edu.cn/b/wlxt/kj/wlkc_kjxxb/student/downloadFile?sfgk=0&wjid="@ + file
}

pub fn FILE_DOWNLOAD(file: &str) -> (r: String)
    ensures
        r@ == file_download_str(file@),
{
    let mut s =
        "https://learn.tsinghua.edu.cn/b/wlxt/kj/wlkc_kjxxb/student/downloadFile?sfgk=0&wjid=".to_owned();
    s.append(file);
    s
}

pub open spec fn notification_list_str(course: Seq<char>) -> Seq<char> {
    "https://learn.tsinghua.edu.cn/b/wlxt/kcgg/wlkc_ggb/student/kcggListXs?wlkcid="@ + course
        + "&size=200"@
}

pub fn NOTIFICATION_LIST(course: &str) -> (r: String)
    ensures
        r@ == notification_list_str(course@),
{
    let mut s = "https://learn.tsinghua.edu.cn/b/wlxt/kcgg/wlkc_ggb/student/kcggListXs?wlkcid=".to_owned();
    s.append(course);
    s.append("&size=200");
    s
}

pub open spec fn notification_detail_str(notification: Seq<char>, course: Seq<char>) -> Seq<char> {
    "https://learn.tsinghua.edu.cn/f/wlxt/kcgg/wlkc_ggb/student/beforeViewXs?wlkcid="@ + course
        + "&id="@ + notification
}

pub fn NOTIFICATION_DETAIL(notification: &str, course: &str) -> (r: String)
    ensures
        r@ == notification_detail_str(notification@, course@),
{
    let mut s =
        "https://learn.tsinghua.edu.cn/f/wlxt/kcgg/wlkc_ggb/student/beforeViewXs?wlkcid=".to_owned();
    s.append(course);
    s.append("&id=");
    s.append(notification);
    s
}

pub open spec fn homework_list_new_str(course: Seq<char>) -> Seq<char> {
    "https://learn.tsinghua.edu.cn/b/wlxt/kczy/zy/student/index/zyListWj?wlkcid="@ + course
        + "&size=200"@
}

pub fn HOMEWORK_LIST_NEW(course: &str) -> (r: String)
    ensures
        r@ == homework_list_new_str(course@),
{
    let mut s = "https://learn.tsinghua.edu.cn/b/wlxt/kczy/zy/student/index/zyListWj?wlkcid=".to_owned();
    s.append(course);
    s.append("&size=200");
    s
}

pub open spec fn homework_list_submitted_str(course: Seq<char>) -> Seq<char> {
    "https://learn.tsinghua.edu.cn/b/wlxt/kczy/zy/student/index/zyListYjwg?wlkcid="@ + course
        + "&size=200"@
}

pub fn HOMEWORK_LIST_SUBMITTED(course: &str) -> (r: String)
    ensures
        r@ == homework_list_submitted_str(course@),
{
    let mut s = "https://learn.tsinghua.edu.cn/b/wlxt/kczy/zy/student/index/zyListYjwg?wlkcid=".to_owned();
    s.append(course);
    s.append("&size=200");
    s
}

pub open spec fn homework_list_graded_str(course: Seq<char>) -> Seq<char> {
    "https://learn.tsinghua.edu.cn/b/wlxt/kczy/zy/student/index/zyListYpg?wlkcid="@ + course
        + "&size=200"@
}

pub fn HOMEWORK_LIST_GRADED(course: &str) -> (r: String)
    ensures
        r@ == homework_list_graded_str(course@),
{
    let mut s = "https://learn.tsinghua.edu.cn/b/wlxt/kczy/zy/student/index/zyListYpg?wlkcid=".to_owned();
    s.append(course);
    s.append("&size=200");
    s
}

pub open spec fn homework_detail_str(
    course: Seq<char>,
    homework: Seq<char>,
    student_homework: Seq<char>,
) -> Seq<char> {
    "https://learn.tsinghua.edu.cn/f/wlxt/kczy/zy/student/viewCj?wlkcid="@ + course + "&zyid="@
        + homework + "&xszyid="@ + student_homework
}

pub fn HOMEWORK_DETAIL(course: &str, homework: &str, student_homework: &str) -> (r: String)
    ensures
        r@ == homework_detail_str(course@, homework@, student_homework@),
{
    let mut s = "https://learn.tsinghua.edu.cn/f/wlxt/kczy/zy/student/viewCj?wlkcid=".to_owned();
    s.append(course);
    s.append("&zyid=");
    s.append(homework);
    s.append("&xszyid=");
    s.append(student_homework);
    s
}

pub open spec fn homework_submit_page_str(
    course: Seq<char>,
    student_homework: Seq<char>,
) -> Seq<char> {
    "https://learn.tsinghua.edu.cn/f/wlxt/kczy/zy/student/tijiao?wlkcid="@ + course + "&xszyid="@
        + student_homework
}

/// The page shown when submitting in a browser; not used by the submission call itself.
pub fn HOMEWORK_SUBMIT_PAGE(course: &str, student_homework: &str) -> (r: String)
    ensures
        r@ == homework_submit_page_str(course@, student_homework@),
{
    let mut s = "https://learn.tsinghua.edu.cn/f/wlxt/kczy/zy/student/tijiao?wlkcid=".to_owned();
    s.append(course);
    s.append("&xszyid=");
    s.append(student_homework);
    s
}

pub open spec fn discussion_list_str(course: Seq<char>) -> Seq<char> {
    "https://learn.tsinghua.edu.cn/b/wlxt/bbs/bbs_tltb/student/kctlList?wlkcid="@ + course
        + "&size=200"@
}

pub fn DISCUSSION_LIST(course: &str) -> (r: String)
    ensures
        r@ == discussion_list_str(course@),
{
    let mut s = "https://learn.tsinghua.edu.cn/b/wlxt/bbs/bbs_tltb/student/kctlList?wlkcid=".to_owned();
    s.append(course);
    s.append("&size=200");
    s
}

pub open spec fn question_list_str(course: Seq<char>) -> Seq<char> {
    "https://learn.tsinghua.edu.cn/b/wlxt/bbs/bbs_tltb/student/kcdyList?wlkcid="@ + course
        + "&size=200"@
}

pub fn QUESTION_LIST(course: &str) -> (r: String)
    ensures
        r@ == question_list_str(course@),
{
    let mut s = "https://learn.tsinghua.edu.cn/b/wlxt/bbs/bbs_tltb/student/kcdyList?wlkcid=".to_owned();
    s.append(course);
    s.append("&size=200");
    s
}

} // verus!

use learn_fs::payload::parse_write_payload;
use learn_fs::text::{bool2str, u64_to_string};
use learn_fs::types::{semester_desc, Course, File, Homework, HomeworkDetail, Notification};
use learn_fs::urls;

#[test]
fn decimal_rendering() {
    assert_eq!(u64_to_string(0), "0");
    assert_eq!(u64_to_string(7), "7");
    assert_eq!(u64_to_string(907), "907");
    assert_eq!(u64_to_string(u64::MAX), "18446744073709551615");
}

#[test]
fn yes_no_marker() {
    assert_eq!(bool2str(true), "是");
    assert_eq!(bool2str(false), "否");
}

#[test]
fn semester_descriptions() {
    assert_eq!(semester_desc("2020-2021-1"), "2020-2021-fall");
    assert_eq!(semester_desc("2020-2021-2"), "2020-2021-spring");
    assert_eq!(semester_desc("x3"), "xsummer");
}

#[test]
fn url_builders() {
    assert_eq!(
        urls::AUTH_ROAM("t0"),
        "https://learn.tsinghua.edu.cn/b/j_spring_security_thauth_roaming_entry?ticket=t0"
    );
    assert_eq!(
        urls::COURSE_LIST("sem"),
        "https://learn.tsinghua.edu.cn/b/wlxt/kc/v_wlkc_xs_xkb_kcb_extend/student/loadCourseBySemesterId/sem"
    );
    assert_eq!(
        urls::COURSE_URL("c9"),
        "https://learn.tsinghua.edu.cn/f/wlxt/index/course/student/course?wlkcid=c9"
    );
    assert_eq!(
        urls::COURSE_TIME_LOCATION("c9"),
        "https://learn.tsinghua.edu.cn/b/kc/v_wlkc_xk_sjddb/detail?id=c9"
    );
    assert_eq!(
        urls::FILE_LIST("c9"),
        "https://learn.tsinghua.edu.cn/b/wlxt/kj/wlkc_kjxxb/student/kjxxbByWlkcidAndSizeForStudent?wlkcid=c9&size=200"
    );
    assert_eq!(
        urls::FILE_DOWNLOAD("f1"),
        "https://learn.tsinghua.edu.cn/b/wlxt/kj/wlkc_kjxxb/student/downloadFile?sfgk=0&wjid=f1"
    );
    assert_eq!(
        urls::NOTIFICATION_LIST("c9"),
        "https://learn.tsinghua.edu.cn/b/wlxt/kcgg/wlkc_ggb/student/kcggListXs?wlkcid=c9&size=200"
    );
    assert_eq!(
        urls::NOTIFICATION_DETAIL("n1", "c9"),
        "https://learn.tsinghua.edu.cn/f/wlxt/kcgg/wlkc_ggb/student/beforeViewXs?wlkcid=c9&id=n1"
    );
    assert_eq!(
        urls::HOMEWORK_LIST_NEW("c9"),
        "https://learn.tsinghua.edu.cn/b/wlxt/kczy/zy/student/index/zyListWj?wlkcid=c9&size=200"
    );
    assert_eq!(
        urls::HOMEWORK_LIST_SUBMITTED("c9"),
        "https://learn.tsinghua.edu.cn/b/wlxt/kczy/zy/student/index/zyListYjwg?wlkcid=c9&size=200"
    );
    assert_eq!(
        urls::HOMEWORK_LIST_GRADED("c9"),
        "https://learn.tsinghua.edu.cn/b/wlxt/kczy/zy/student/index/zyListYpg?wlkcid=c9&size=200"
    );
    assert_eq!(
        urls::HOMEWORK_DETAIL("c9", "z1", "x1"),
        "https://learn.tsinghua.edu.cn/f/wlxt/kczy/zy/student/viewCj?wlkcid=c9&zyid=z1&xszyid=x1"
    );
    assert_eq!(
        urls::HOMEWORK_SUBMIT_PAGE("c9", "x1"),
        "https://learn.tsinghua.edu.cn/f/wlxt/kczy/zy/student/tijiao?wlkcid=c9&xszyid=x1"
    );
    assert_eq!(
        urls::DISCUSSION_LIST("c9"),
        "https://learn.tsinghua.edu.cn/b/wlxt/bbs/bbs_tltb/student/kctlList?wlkcid=c9&size=200"
    );
    assert_eq!(
        urls::QUESTION_LIST("c9"),
        "https://learn.tsinghua.edu.cn/b/wlxt/bbs/bbs_tltb/student/kcdyList?wlkcid=c9&size=200"
    );
}

#[test]
fn record_url_methods() {
    let c = Course {
        id: "c9".to_string(),
        name: "算法".to_string(),
        english_name: "Algorithms".to_string(),
        teacher_name: "t".to_string(),
        teacher_number: "1".to_string(),
        course_number: "2".to_string(),
        course_index: 1,
        time_location: Vec::new(),
    };
    assert_eq!(c.url(), urls::COURSE_URL("c9"));
    let n = Notification {
        course_id: "c9".to_string(),
        id: "n1".to_string(),
        title: "t".to_string(),
        content: "c".to_string(),
        read: false,
        important: false,
        publish_time: "2020-01-01 08:00:00".to_string(),
        publisher: "p".to_string(),
        attachment_name: None,
        attachment_url: None,
    };
    assert_eq!(n.detail_url(), urls::NOTIFICATION_DETAIL("n1", "c9"));
    let f = File {
        id: "f1".to_string(),
        title: "t".to_string(),
        description: "d".to_string(),
        raw_size: 1,
        size: "1B".to_string(),
        upload_time: "2020-01-01 08:00:00".to_string(),
        new: true,
        important: false,
        visit_count: 0,
        download_count: 0,
        file_type: "pdf".to_string(),
    };
    assert_eq!(f.download_url(), urls::FILE_DOWNLOAD("f1"));
    let h = Homework {
        course_id: "c9".to_string(),
        id: "z1".to_string(),
        student_homework_id: "x1".to_string(),
        title: "hw".to_string(),
        assign_time: "2020-01-01 08:00:00".to_string(),
        deadline: "2020-01-08 08:00:00".to_string(),
        submit_time: None,
        submit_content: None,
        grade: None,
        grade_time: None,
        grader_name: None,
        grade_content: None,
        detail: HomeworkDetail {
            description: "d".to_string(),
            attachment_name_url: None,
            submit_attachment_name_url: None,
            grade_attachment_name_url: None,
        },
    };
    assert_eq!(h.detail_url(), urls::HOMEWORK_DETAIL("c9", "z1", "x1"));
    assert_eq!(h.submit_page(), urls::HOMEWORK_SUBMIT_PAGE("c9", "x1"));
}

#[test]
fn payload_plain_text() {
    let p = parse_write_payload(b"hello world").unwrap();
    assert!(p.file.is_none());
    assert_eq!(p.content, "hello world");
}

#[test]
fn payload_with_file() {
    let p = parse_write_payload("FILE=a.txt some text".as_bytes()).unwrap();
    assert_eq!(p.file.as_deref(), Some("a.txt"));
    assert_eq!(p.content, " some text");
}

#[test]
fn payload_file_terminated_by_tab() {
    let p = parse_write_payload(b"FILE=x\tafter").unwrap();
    assert_eq!(p.file.as_deref(), Some("x"));
    assert_eq!(p.content, "\tafter");
}

#[test]
fn payload_file_without_text() {
    let p = parse_write_payload(b"FILE=abc").unwrap();
    assert_eq!(p.file.as_deref(), Some("abc"));
    assert_eq!(p.content, "");
}

#[test]
fn payload_prefix_must_match_exactly() {
    let p = parse_write_payload(b"FILE").unwrap();
    assert!(p.file.is_none());
    assert_eq!(p.content, "FILE");
    let q = parse_write_payload(b"file=a b").unwrap();
    assert!(q.file.is_none());
    assert_eq!(q.content, "file=a b");
}

#[test]
fn payload_rejects_invalid_utf8() {
    assert!(parse_write_payload(&[0x66, 0xff, 0x01]).is_none());
}

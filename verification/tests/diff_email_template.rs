use braze_sync::diff::email_template::diff;
use braze_sync::diff::DiffOp;
use braze_sync::resource::EmailTemplate;

fn et(name: &str, html: &str) -> EmailTemplate {
    EmailTemplate {
        name: name.into(),
        subject: format!("Subject {name}"),
        body_html: html.into(),
        body_plaintext: format!("plain {name}"),
        description: Some(format!("{name} desc")),
        preheader: Some("preview".into()),
        should_inline_css: Some(true),
        tags: vec!["tag".into()],
    }
}

#[test]
fn email_template_both_absent_returns_none() {
    assert!(diff(None, None).is_none());
}

#[test]
fn email_template_local_only_is_added() {
    let l = et("welcome", "<p>Hi</p>");
    let d = diff(Some(&l), None).unwrap();
    assert!(matches!(d.op, DiffOp::Added(_)));
    assert!(!d.orphan);
    assert!(d.has_changes());
}

#[test]
fn email_template_remote_only_is_orphan_not_removed() {
    let r = et("legacy", "<p>old</p>");
    let d = diff(None, Some(&r)).unwrap();
    assert!(matches!(d.op, DiffOp::Unchanged));
    assert!(d.orphan);
    assert!(d.is_orphan());
    assert!(d.has_changes());
}

#[test]
fn equal_templates_are_unchanged() {
    let l = et("same", "<p>body</p>\n");
    let r = et("same", "<p>body</p>\n");
    let d = diff(Some(&l), Some(&r)).unwrap();
    assert!(matches!(d.op, DiffOp::Unchanged));
    assert!(!d.orphan);
    assert!(!d.has_changes());
}

#[test]
fn subject_change_is_modified() {
    let mut l = et("sub", "<p>body</p>\n");
    let r = et("sub", "<p>body</p>\n");
    l.subject = "New subject".into();
    let d = diff(Some(&l), Some(&r)).unwrap();
    assert!(matches!(d.op, DiffOp::Modified { .. }));
    assert!(d.subject_changed);
    assert!(d.body_html_diff.is_none());
    assert!(d.body_plaintext_diff.is_none());
}

#[test]
fn body_html_change_produces_text_diff() {
    let l = et("html", "line a\nline b\nline c\n");
    let mut r = et("html", "line a\nold b\nline c\n");
    r.body_html = "line a\nold b\nline c\n".into();
    r.body_plaintext = l.body_plaintext.clone();
    let d = diff(Some(&l), Some(&r)).unwrap();
    assert!(matches!(d.op, DiffOp::Modified { .. }));
    let td = d.body_html_diff.expect("html diff present");
    assert_eq!(td.additions, 1);
    assert_eq!(td.deletions, 1);
    assert!(d.body_plaintext_diff.is_none());
}

#[test]
fn body_plaintext_change_produces_text_diff() {
    let l = et("txt", "<p>same</p>");
    let mut r = et("txt", "<p>same</p>");
    r.body_plaintext = "different plain".into();
    let d = diff(Some(&l), Some(&r)).unwrap();
    assert!(matches!(d.op, DiffOp::Modified { .. }));
    assert!(d.body_html_diff.is_none());
    assert!(d.body_plaintext_diff.is_some());
}

#[test]
fn description_difference_alone_is_not_drift() {
    let mut l = et("desc", "<p>body</p>");
    let r = et("desc", "<p>body</p>");
    l.description = Some("new desc".into());
    let d = diff(Some(&l), Some(&r)).unwrap();
    assert!(matches!(d.op, DiffOp::Unchanged), "got {:?}", d.op);
    assert!(!d.has_changes());
}

#[test]
fn email_template_tag_reorder_alone_is_not_drift() {
    let mut l = et("tags", "<p>body</p>");
    let mut r = et("tags", "<p>body</p>");
    l.tags = vec!["alpha".into(), "beta".into(), "gamma".into()];
    r.tags = vec!["gamma".into(), "alpha".into(), "beta".into()];
    let d = diff(Some(&l), Some(&r)).unwrap();
    assert!(matches!(d.op, DiffOp::Unchanged), "got {:?}", d.op);
    assert!(!d.has_changes());
}

#[test]
fn tag_change_is_modified_with_metadata_flag() {
    let mut l = et("tags2", "<p>body</p>");
    let r = et("tags2", "<p>body</p>");
    l.tags = vec!["a".into(), "b".into()];
    let d = diff(Some(&l), Some(&r)).unwrap();
    assert!(matches!(d.op, DiffOp::Modified { .. }));
    assert!(d.metadata_changed);
    assert!(!d.subject_changed);
}

#[test]
fn preheader_none_equals_empty() {
    let mut l = et("pre", "<p>body</p>");
    let mut r = et("pre", "<p>body</p>");
    l.preheader = Some(String::new());
    r.preheader = None;
    let d = diff(Some(&l), Some(&r)).unwrap();
    assert!(matches!(d.op, DiffOp::Unchanged), "got {:?}", d.op);
    assert!(!d.has_changes());
}

#[test]
fn should_inline_css_change_is_metadata_modified() {
    let mut l = et("css", "<p>body</p>");
    let r = et("css", "<p>body</p>");
    l.should_inline_css = Some(false);
    let d = diff(Some(&l), Some(&r)).unwrap();
    assert!(matches!(d.op, DiffOp::Modified { .. }));
    assert!(d.metadata_changed);
}

#[test]
fn destructive_count_is_never_set_on_email_templates() {
    let r = et("ghost", "<p>x</p>");
    let orphan = diff(None, Some(&r)).unwrap();
    assert!(!orphan.op.is_destructive());

    let l2 = et("changed", "<p>new</p>");
    let r2 = et("changed", "<p>old</p>");
    let modified = diff(Some(&l2), Some(&r2)).unwrap();
    assert!(!modified.op.is_destructive());
}

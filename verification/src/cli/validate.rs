//! `validate`: checks of local files. All problems are gathered, so that one
//! run shows every one of them. Nothing is asked of Braze.

use crate::braze::error::{quoted, quoted_text};
use crate::braze::opt_str;
use crate::error::Error;
use crate::fs::{misnamed, no_directory, try_read_resource_dir, Found, RootListing};
use crate::order::{contains_str, names_of, views, Named};
use crate::pattern::{excluded, is_excluded, pattern_matches, pattern_problem, NamePattern};
use crate::resource::tag::TagView;
use crate::resource::{
    CustomAttribute, CustomAttributeRegistry, EmailTemplate, ResourceKind, Tag, TagRegistry,
};
use crate::text::{decimal, decimal_text, occurs_in, owned, str_eq, strs};
use vstd::prelude::*;

verus! {

#[derive(Debug)]
pub struct ValidateArgs {
    pub resource: Option<ResourceKind>,
}

/// A problem with a file.
#[derive(Debug, PartialEq, Eq)]
pub struct ValidationIssue {
    pub path: String,
    pub message: String,
}

/// What a problem is.
#[verifier::ext_equal]
pub struct IssueView {
    pub path: Seq<char>,
    pub message: Seq<char>,
}

impl View for ValidationIssue {
    type V = IssueView;

    open spec fn view(&self) -> IssueView {
        IssueView { path: self.path@, message: self.message@ }
    }
}

/// The entries of the root of a kind. A root that is no directory is a
/// problem, not an error.
pub fn open_resource_dir<E>(root: &str, label: &str, listing: RootListing<E>) -> (r: Result<
    (Vec<E>, Option<ValidationIssue>),
    Error,
>)
    ensures
        match listing {
            RootListing::Missing => r matches Ok(p) && p.0@.len() == 0 && p.1 is None,
            RootListing::NotADirectory => r matches Ok(p) && p.0@.len() == 0 && (p.1 matches Some(
                i,
            ) && i@ == (IssueView { path: root@, message: no_directory(label@) })),
            RootListing::Unreadable(m) => r matches Err(e) && e == Error::Io(m),
            RootListing::Entries(v) => r matches Ok(p) && p.0 == v && p.1 is None,
        },
{
    match try_read_resource_dir(root, label, listing) {
        Ok(v) => Ok((v, None)),
        Err(Error::InvalidFormat { path, message }) => Ok(
            (Vec::new(), Some(ValidationIssue { path, message })),
        ),
        Err(e) => Err(e),
    }
}

/// What is said of a pattern that does not compile.
pub open spec fn bad_pattern(key: Seq<char>, raw: Seq<char>, problem: Seq<char>) -> Seq<char> {
    "invalid "@ + key + " regex "@ + quoted(raw) + ": "@ + problem
}

/// The pattern for the names of a kind, if there is one. One that does not
/// compile is an error.
pub fn compile_name_pattern(raw: Option<&str>, key: &str) -> (r: Result<
    Option<NamePattern>,
    Error,
>)
    ensures
        match opt_str(raw) {
            None => r matches Ok(None),
            Some(p) => match pattern_problem(p) {
                None => r matches Ok(Some(c)) && c.text() == p,
                Some(e) => r matches Err(Error::Other(m)) && m@ == bad_pattern(key@, p, e),
            },
        },
{
    match raw {
        None => Ok(None),
        Some(p) => match NamePattern::compile(p) {
            Ok(c) => Ok(Some(c)),
            Err(e) => {
                let mut m = owned("invalid ");
                m.push_str(key);
                m.push_str(" regex ");
                m.push_str(quoted_text(p).as_str());
                m.push_str(": ");
                m.push_str(e.as_str());
                Err(Error::Other(m))
            },
        },
    }
}

/// The text of a pattern, if there is one.
pub open spec fn pattern_text(p: Option<&NamePattern>) -> Option<Seq<char>> {
    match p {
        Some(c) => Some(c.text()),
        None => None,
    }
}

/// The problem of a name that does not match its pattern.
pub open spec fn name_issues(
    pattern: Option<Seq<char>>,
    name: Seq<char>,
    path: Seq<char>,
    label: Seq<char>,
    key: Seq<char>,
) -> Seq<IssueView> {
    match pattern {
        Some(p) => if pattern_matches(p, name) {
            Seq::empty()
        } else {
            seq![
                IssueView {
                    path,
                    message: label + " name '"@ + name + "' does not match "@ + key + " '"@ + p
                        + "'"@,
                },
            ]
        },
        None => Seq::empty(),
    }
}

/// Adds a problem where a name does not match its pattern.
pub fn check_name_pattern(
    pattern: Option<&NamePattern>,
    name: &str,
    path: &str,
    label: &str,
    key: &str,
    issues: &mut Vec<ValidationIssue>,
)
    ensures
        views(final(issues)@) == views(old(issues)@) + name_issues(
            pattern_text(pattern),
            name@,
            path@,
            label@,
            key@,
        ),
{
    let ghost before = views(issues@);
    if let Some(p) = pattern {
        if !p.is_match(name) {
            let mut message = owned(label);
            message.push_str(" name '");
            message.push_str(name);
            message.push_str("' does not match ");
            message.push_str(key);
            message.push_str(" '");
            message.push_str(p.as_str());
            message.push_str("'");
            issues.push(ValidationIssue { path: owned(path), message });
        }
    }
    assert(views(issues@) =~= before + name_issues(
        pattern_text(pattern),
        name@,
        path@,
        label@,
        key@,
    ));
}

/// The problem of a file that cannot be read.
pub open spec fn parse_issue(path: Seq<char>, problem: Seq<char>) -> IssueView {
    IssueView { path, message: "parse error: "@ + problem }
}

/// The problem of a resource whose name is not that of its place.
pub open spec fn place_issues<T: Named>(
    f: Found<T>,
    name: Seq<char>,
    label: Seq<char>,
    place: Seq<char>,
) -> Seq<IssueView> {
    if name == f.expected_name@ {
        Seq::empty()
    } else {
        seq![
            IssueView {
                path: f.path@,
                message: misnamed(label, place, name, f.expected_name@),
            },
        ]
    }
}

/// What is checked of the resources of a kind.
pub struct Rules<'a> {
    /// What a resource of the kind is called.
    pub label: &'a str,
    /// What the name has to be that of.
    pub place: &'a str,
    pub pattern: Option<&'a NamePattern>,
    /// Where the pattern stands in the configuration.
    pub key: &'a str,
    /// Names that are managed elsewhere and not checked.
    pub excludes: &'a Vec<NamePattern>,
}

/// The problems of one resource.
pub open spec fn resource_issues<T: Named>(f: Found<T>, rules: Rules) -> Seq<IssueView> {
    match f.value {
        Err(e) => seq![parse_issue(f.path@, e.text())],
        Ok(t) => if excluded(T::name_of(t@), rules.excludes@) {
            Seq::empty()
        } else {
            place_issues(f, T::name_of(t@), rules.label@, rules.place@) + name_issues(
                pattern_text(rules.pattern),
                T::name_of(t@),
                f.path@,
                rules.label@,
                rules.key@,
            )
        },
    }
}

/// The problems of the resources of a kind.
pub open spec fn kind_issues<T: Named>(found: Seq<Found<T>>, rules: Rules) -> Seq<IssueView>
    decreases found.len(),
{
    if found.len() == 0 {
        Seq::empty()
    } else {
        kind_issues(found.drop_last(), rules) + resource_issues(found.last(), rules)
    }
}

fn push_parse_issue(path: &String, e: &Error, issues: &mut Vec<ValidationIssue>)
    ensures
        views(final(issues)@) == views(old(issues)@).push(parse_issue(path@, e.text())),
{
    let ghost before = views(issues@);
    let mut message = owned("parse error: ");
    message.push_str(e.to_string().as_str());
    issues.push(ValidationIssue { path: path.clone(), message });
    assert(views(issues@) =~= before.push(parse_issue(path@, e.text())));
}

fn check_place<T: Named>(
    f: &Found<T>,
    name: &str,
    label: &str,
    place: &str,
    issues: &mut Vec<ValidationIssue>,
)
    ensures
        views(final(issues)@) == views(old(issues)@) + place_issues(*f, name@, label@, place@),
{
    let ghost before = views(issues@);
    if !str_eq(name, f.expected_name.as_str()) {
        let mut message = owned(label);
        message.push_str(" name '");
        message.push_str(name);
        message.push_str("' does not match its ");
        message.push_str(place);
        message.push_str(" '");
        message.push_str(f.expected_name.as_str());
        message.push_str("'");
        issues.push(ValidationIssue { path: f.path.clone(), message });
    }
    assert(views(issues@) =~= before + place_issues(*f, name@, label@, place@));
}

/// Checks the resources of a kind: that they can be read, that each is named
/// as its file or directory, and that the names match their pattern.
pub fn validate_resources<T: Named>(
    found: &Vec<Found<T>>,
    rules: &Rules,
    issues: &mut Vec<ValidationIssue>,
)
    ensures
        views(final(issues)@) == views(old(issues)@) + kind_issues(found@, *rules),
{
    let ghost start = views(issues@);
    let ghost fs = found@;
    let mut i: usize = 0;
    assert(start + kind_issues(fs.take(0), *rules) =~= start);
    while i < found.len()
        invariant
            i <= found@.len(),
            fs == found@,
            views(issues@) == start + kind_issues(fs.take(i as int), *rules),
        decreases found@.len() - i,
    {
        let f = &found[i];
        let ghost before = views(issues@);
        proof {
            assert(fs.take(i + 1).drop_last() =~= fs.take(i as int));
            assert(fs.take(i + 1).last() == *f);
        }
        match &f.value {
            Err(e) => {
                push_parse_issue(&f.path, e, issues);
                assert(views(issues@) =~= before + resource_issues(*f, *rules));
            },
            Ok(t) => {
                let name = t.name_ref().as_str();
                if !is_excluded(name, rules.excludes) {
                    check_place(f, name, rules.label, rules.place, issues);
                    check_name_pattern(
                        rules.pattern,
                        name,
                        f.path.as_str(),
                        rules.label,
                        rules.key,
                        issues,
                    );
                }
                assert(views(issues@) =~= before + resource_issues(*f, *rules));
            },
        }
        assert(views(issues@) =~= start + kind_issues(fs.take(i + 1), *rules));
        i = i + 1;
    }
    assert(fs.take(i as int) =~= fs);
}

/// The problem of a template without a subject.
pub open spec fn subject_issues(name: Seq<char>, subject: Seq<char>, path: Seq<char>) -> Seq<
    IssueView,
> {
    if subject.len() == 0 {
        seq![
            IssueView {
                path,
                message: "email template '"@ + name + "' has an empty subject"@,
            },
        ]
    } else {
        Seq::empty()
    }
}

/// The problems of one template.
pub open spec fn template_issues(f: Found<EmailTemplate>, excludes: Seq<NamePattern>) -> Seq<
    IssueView,
> {
    match f.value {
        Err(e) => seq![parse_issue(f.path@, e.text())],
        Ok(t) => if excluded(t@.name, excludes) {
            Seq::empty()
        } else {
            place_issues(f, t@.name, "email template"@, "directory"@) + subject_issues(
                t@.name,
                t@.subject,
                f.path@,
            )
        },
    }
}

/// The problems of templates.
pub open spec fn all_template_issues(
    found: Seq<Found<EmailTemplate>>,
    excludes: Seq<NamePattern>,
) -> Seq<IssueView>
    decreases found.len(),
{
    if found.len() == 0 {
        Seq::empty()
    } else {
        all_template_issues(found.drop_last(), excludes) + template_issues(found.last(), excludes)
    }
}

/// Checks email templates: that they can be read, that each is named as its
/// directory, and that it has a subject.
pub fn validate_email_templates(
    found: &Vec<Found<EmailTemplate>>,
    excludes: &Vec<NamePattern>,
    issues: &mut Vec<ValidationIssue>,
)
    ensures
        views(final(issues)@) == views(old(issues)@) + all_template_issues(found@, excludes@),
{
    let ghost start = views(issues@);
    let ghost fs = found@;
    let mut i: usize = 0;
    assert(start + all_template_issues(fs.take(0), excludes@) =~= start);
    while i < found.len()
        invariant
            i <= found@.len(),
            fs == found@,
            views(issues@) == start + all_template_issues(fs.take(i as int), excludes@),
        decreases found@.len() - i,
    {
        let f = &found[i];
        let ghost before = views(issues@);
        proof {
            assert(fs.take(i + 1).drop_last() =~= fs.take(i as int));
            assert(fs.take(i + 1).last() == *f);
        }
        match &f.value {
            Err(e) => {
                push_parse_issue(&f.path, e, issues);
                assert(views(issues@) =~= before + template_issues(*f, excludes@));
            },
            Ok(t) => {
                if !is_excluded(t.name.as_str(), excludes) {
                    check_place(f, t.name.as_str(), "email template", "directory", issues);
                    if t.subject.as_str().is_empty() {
                        let mut message = owned("email template '");
                        message.push_str(t.name.as_str());
                        message.push_str("' has an empty subject");
                        let ghost placed = views(issues@);
                        let ghost text = message@;
                        issues.push(ValidationIssue { path: f.path.clone(), message });
                        assert(views(issues@) =~= placed.push(
                            IssueView { path: f.path@, message: text },
                        ));
                    }
                }
                assert(views(issues@) =~= before + template_issues(*f, excludes@));
            },
        }
        assert(views(issues@) =~= start + all_template_issues(fs.take(i + 1), excludes@));
        i = i + 1;
    }
    assert(fs.take(i as int) =~= fs);
}

/// What is checked of a registry.
pub struct RegistryRules<'a> {
    /// Where the registry is.
    pub path: &'a str,
    /// What an entry is called.
    pub label: &'a str,
    pub pattern: Option<&'a NamePattern>,
    /// Where the pattern stands in the configuration.
    pub key: &'a str,
    /// Names that are managed elsewhere and not checked.
    pub excludes: &'a Vec<NamePattern>,
}

/// What the rules of a registry are.
#[verifier::ext_equal]
pub struct RegistryRulesView {
    pub path: Seq<char>,
    pub label: Seq<char>,
    pub pattern: Option<Seq<char>>,
    pub key: Seq<char>,
    pub excludes: Seq<NamePattern>,
}

impl<'a> View for RegistryRules<'a> {
    type V = RegistryRulesView;

    open spec fn view(&self) -> RegistryRulesView {
        RegistryRulesView {
            path: self.path@,
            label: self.label@,
            pattern: pattern_text(self.pattern),
            key: self.key@,
            excludes: self.excludes@,
        }
    }
}

/// The problems of the entry behind the given ones.
pub open spec fn entry_issues(
    before: Seq<Seq<char>>,
    name: Seq<char>,
    rules: RegistryRulesView,
) -> Seq<IssueView> {
    if excluded(name, rules.excludes) {
        Seq::empty()
    } else {
        (if before.contains(name) {
            seq![
                IssueView {
                    path: rules.path,
                    message: "duplicate "@ + rules.label + " name '"@ + name + "'"@,
                },
            ]
        } else {
            Seq::empty()
        }) + name_issues(
            rules.pattern,
            name,
            rules.path,
            rules.label,
            rules.key,
        )
    }
}

/// The problems of the entries of a registry.
pub open spec fn registry_issues(names: Seq<Seq<char>>, rules: RegistryRulesView) -> Seq<IssueView>
    decreases names.len(),
{
    if names.len() == 0 {
        Seq::empty()
    } else {
        registry_issues(names.drop_last(), rules) + entry_issues(
            names.drop_last(),
            names.last(),
            rules,
        )
    }
}

/// Checks the entries of a registry: that no name is repeated, and that the
/// names match their pattern.
pub fn validate_entries<T: Named>(
    entries: &Vec<T>,
    rules: &RegistryRules,
    issues: &mut Vec<ValidationIssue>,
)
    ensures
        views(final(issues)@) == views(old(issues)@) + registry_issues(
            names_of::<T>(views(entries@)),
            rules@,
        ),
{
    let ghost start = views(issues@);
    let ghost ns = names_of::<T>(views(entries@));
    let mut seen: Vec<String> = Vec::new();
    let mut i: usize = 0;
    assert(strs(seen@) =~= ns.take(0));
    assert(start + registry_issues(ns.take(0), rules@) =~= start);
    while i < entries.len()
        invariant
            i <= entries@.len(),
            ns == names_of::<T>(views(entries@)),
            strs(seen@) == ns.take(i as int),
            views(issues@) == start + registry_issues(ns.take(i as int), rules@),
        decreases entries@.len() - i,
    {
        let name = entries[i].name_ref();
        let ghost before = views(issues@);
        proof {
            assert(ns[i as int] == name@);
            assert(ns.take(i + 1).drop_last() =~= ns.take(i as int));
            assert(ns.take(i + 1).last() == name@);
        }
        if !is_excluded(name.as_str(), rules.excludes) {
            if contains_str(&seen, name.as_str()) {
                let mut message = owned("duplicate ");
                message.push_str(rules.label);
                message.push_str(" name '");
                message.push_str(name.as_str());
                message.push_str("'");
                issues.push(ValidationIssue { path: owned(rules.path), message });
            }
            check_name_pattern(
                rules.pattern,
                name.as_str(),
                rules.path,
                rules.label,
                rules.key,
                issues,
            );
        }
        assert(views(issues@) =~= before + entry_issues(ns.take(i as int), name@, rules@));
        assert(views(issues@) =~= start + registry_issues(ns.take(i + 1), rules@));
        let ghost listed = seen@;
        seen.push(name.clone());
        assert(strs(seen@) =~= strs(listed).push(name@));
        assert(strs(seen@) =~= ns.take(i + 1));
        i = i + 1;
    }
    assert(ns.take(i as int) =~= ns);
}

/// The registry that was read, if there is one. One that is no YAML is a
/// problem, and one that cannot be read at all an error.
pub fn registry_or_issue<R>(
    loaded: Result<Option<R>, Error>,
    issues: &mut Vec<ValidationIssue>,
) -> (r: Result<Option<R>, Error>)
    ensures
        match loaded {
            Ok(o) => r == Ok::<Option<R>, Error>(o) && views(final(issues)@) == views(
                old(issues)@,
            ),
            Err(Error::YamlParse { path, source }) => r == Ok::<Option<R>, Error>(None) && views(
                final(issues)@,
            ) == views(old(issues)@).push(parse_issue(path@, source@)),
            Err(e) => r == Err::<Option<R>, Error>(e) && views(final(issues)@) == views(
                old(issues)@,
            ),
        },
{
    let ghost before = views(issues@);
    match loaded {
        Ok(o) => Ok(o),
        Err(Error::YamlParse { path, source }) => {
            let mut message = owned("parse error: ");
            message.push_str(source.as_str());
            let ghost issue = parse_issue(path@, source@);
            issues.push(ValidationIssue { path, message });
            assert(views(issues@) =~= before.push(issue));
            Ok(None)
        },
        Err(e) => Err(e),
    }
}

/// The rules for the registry of custom attributes.
pub open spec fn attribute_rules(
    path: Seq<char>,
    pattern: Option<Seq<char>>,
    excludes: Seq<NamePattern>,
) -> RegistryRulesView {
    RegistryRulesView {
        path,
        label: "custom attribute"@,
        pattern,
        key: "custom_attribute_name_pattern"@,
        excludes,
    }
}

/// What is said of a pattern for names, where there is one and it does not
/// compile.
pub open spec fn name_pattern_problem(raw: Option<Seq<char>>, key: Seq<char>) -> Option<Seq<char>> {
    match raw {
        Some(p) => match pattern_problem(p) {
            Some(e) => Some(bad_pattern(key, p, e)),
            None => None,
        },
        None => None,
    }
}

/// Checks the registry of custom attributes. Where there is none there is
/// nothing to check, and the pattern is not looked at.
pub fn validate_custom_attributes(
    loaded: Result<Option<CustomAttributeRegistry>, Error>,
    path: &str,
    name_pattern: Option<&str>,
    excludes: &Vec<NamePattern>,
    issues: &mut Vec<ValidationIssue>,
) -> (r: Result<(), Error>)
    ensures
        match loaded {
            Ok(None) => r is Ok && views(final(issues)@) == views(old(issues)@),
            Ok(Some(reg)) => match name_pattern_problem(
                opt_str(name_pattern),
                "custom_attribute_name_pattern"@,
            ) {
                Some(m) => (r matches Err(Error::Other(t)) && t@ == m) && views(final(issues)@)
                    == views(old(issues)@),
                None => r is Ok && views(final(issues)@) == views(old(issues)@) + registry_issues(
                    names_of::<CustomAttribute>(views(reg.attributes@)),
                    attribute_rules(path@, opt_str(name_pattern), excludes@),
                ),
            },
            Err(Error::YamlParse { path, source }) => r is Ok && views(final(issues)@) == views(
                old(issues)@,
            ).push(parse_issue(path@, source@)),
            Err(e) => r == Err::<(), Error>(e) && views(final(issues)@) == views(old(issues)@),
        },
{
    match registry_or_issue(loaded, issues) {
        Ok(Some(reg)) => {
            let key = "custom_attribute_name_pattern";
            let pattern = match compile_name_pattern(name_pattern, key) {
                Ok(p) => p,
                Err(e) => return Err(e),
            };
            let rules = RegistryRules {
                path,
                label: "custom attribute",
                pattern: pattern.as_ref(),
                key,
                excludes,
            };
            assert(rules@ =~= attribute_rules(path@, opt_str(name_pattern), excludes@));
            validate_entries(&reg.attributes, &rules, issues);
            Ok(())
        },
        Ok(None) => Ok(()),
        Err(e) => Err(e),
    }
}

/// The problems of tags that are in use but not declared.
pub open spec fn undeclared_issues(
    references: Seq<Seq<char>>,
    registry: Seq<TagView>,
    path: Seq<char>,
    excludes: Seq<NamePattern>,
) -> Seq<IssueView>
    decreases references.len(),
{
    if references.len() == 0 {
        Seq::empty()
    } else {
        let before = undeclared_issues(references.drop_last(), registry, path, excludes);
        let name = references.last();
        if excluded(name, excludes) || names_of::<Tag>(registry).contains(name) {
            before
        } else {
            before.push(
                IssueView {
                    path,
                    message: "tag '"@ + name
                        + "' is referenced by a local resource but not declared"@,
                },
            )
        }
    }
}

/// Checks that the tags in use are declared. Without a registry none is.
pub fn validate_tag_references(
    references: &Vec<String>,
    registry: &TagRegistry,
    path: &str,
    excludes: &Vec<NamePattern>,
    issues: &mut Vec<ValidationIssue>,
)
    ensures
        views(final(issues)@) == views(old(issues)@) + undeclared_issues(
            strs(references@),
            registry@,
            path@,
            excludes@,
        ),
{
    let ghost start = views(issues@);
    let ghost rs = strs(references@);
    let mut i: usize = 0;
    assert(start + undeclared_issues(rs.take(0), registry@, path@, excludes@) =~= start);
    while i < references.len()
        invariant
            i <= references@.len(),
            rs == strs(references@),
            views(issues@) == start + undeclared_issues(
                rs.take(i as int),
                registry@,
                path@,
                excludes@,
            ),
        decreases references@.len() - i,
    {
        proof {
            assert(rs.take(i + 1).drop_last() =~= rs.take(i as int));
            assert(rs.take(i + 1).last() == references@[i as int]@);
        }
        let name = references[i].as_str();
        if !is_excluded(name, excludes) && !registry.contains(name) {
            let mut message = owned("tag '");
            message.push_str(name);
            message.push_str("' is referenced by a local resource but not declared");
            let ghost before = views(issues@);
            let ghost text = message@;
            issues.push(ValidationIssue { path: owned(path), message });
            assert(views(issues@) =~= before.push(IssueView { path: path@, message: text }));
        }
        assert(views(issues@) =~= start + undeclared_issues(
            rs.take(i + 1),
            registry@,
            path@,
            excludes@,
        ));
        i = i + 1;
    }
    assert(rs.take(i as int) =~= rs);
}

/// One line for each problem.
pub open spec fn issue_lines(issues: Seq<IssueView>) -> Seq<char>
    decreases issues.len(),
{
    if issues.len() == 0 {
        Seq::empty()
    } else {
        issue_lines(issues.drop_last()) + "  • "@ + issues.last().path + ": "@
            + issues.last().message + "\n"@
    }
}

/// What the operator is told of the problems.
pub open spec fn issue_report(issues: Seq<IssueView>) -> Seq<char> {
    if issues.len() == 0 {
        "✓ All checks passed.\n"@
    } else {
        "✗ Validation found "@ + decimal(issues.len()) + " issue(s):\n"@ + issue_lines(issues)
    }
}

/// Tells the operator of the problems.
pub fn report(issues: &Vec<ValidationIssue>) -> (r: String)
    ensures
        r@ == issue_report(views(issues@)),
{
    let ghost all = views(issues@);
    if issues.len() == 0 {
        return owned("✓ All checks passed.\n");
    }
    let mut lines = String::new();
    let mut i: usize = 0;
    assert(issue_lines(all.take(0)) =~= Seq::empty());
    while i < issues.len()
        invariant
            i <= issues@.len(),
            all == views(issues@),
            lines@ == issue_lines(all.take(i as int)),
        decreases issues@.len() - i,
    {
        proof {
            assert(all.take(i + 1).drop_last() =~= all.take(i as int));
            assert(all.take(i + 1).last() == issues@[i as int]@);
        }
        lines.push_str("  • ");
        lines.push_str(issues[i].path.as_str());
        lines.push_str(": ");
        lines.push_str(issues[i].message.as_str());
        lines.push_str("\n");
        i = i + 1;
    }
    assert(all.take(i as int) =~= all);
    let mut out = owned("✗ Validation found ");
    out.push_str(decimal_text(issues.len() as u64).as_str());
    out.push_str(" issue(s):\n");
    out.push_str(lines.as_str());
    out
}

/// Fails where there are problems.
pub fn conclude(issues: &Vec<ValidationIssue>) -> (r: Result<(), Error>)
    ensures
        match r {
            Ok(_) => issues@.len() == 0,
            Err(Error::Config(m)) => issues@.len() > 0 && m@ == decimal(issues@.len())
                + " validation issue(s) found"@,
            Err(_) => false,
        },
{
    if issues.len() == 0 {
        return Ok(());
    }
    let mut m = decimal_text(issues.len() as u64);
    m.push_str(" validation issue(s) found");
    Err(Error::Config(m))
}

/// A registry has no problems exactly where no name that is checked is
/// repeated and every one matches the pattern.
pub proof fn clean_registry(names: Seq<Seq<char>>, rules: RegistryRulesView)
    ensures
        registry_issues(names, rules).len() == 0 <==> forall|i: int|
            #![trigger names[i]]
            0 <= i < names.len() && !excluded(names[i], rules.excludes) ==> {
                &&& !names.take(i).contains(names[i])
                &&& (rules.pattern matches Some(p) ==> pattern_matches(p, names[i]))
            },
    decreases names.len(),
{
    if names.len() > 0 {
        let front = names.drop_last();
        clean_registry(front, rules);
        assert forall|i: int| 0 <= i < front.len() implies front.take(i) == #[trigger] names.take(
            i,
        ) by {
            assert(front.take(i) =~= names.take(i));
        }
        assert forall|i: int| 0 <= i < front.len() implies front[i] == #[trigger] names[i] by {}
        assert(names.take(names.len() - 1) =~= front);
        assert(names.last() == names[names.len() - 1]);
        let fine = |i: int|
            !excluded(names[i], rules.excludes) ==> {
                &&& !names.take(i).contains(names[i])
                &&& (rules.pattern matches Some(p) ==> pattern_matches(p, names[i]))
            };
        assert(entry_issues(front, names.last(), rules).len() == 0 <==> fine(names.len() - 1));
        if registry_issues(names, rules).len() == 0 {
            assert forall|i: int|
                #![trigger names[i]]
                0 <= i < names.len() && !excluded(names[i], rules.excludes) implies {
                &&& !names.take(i).contains(names[i])
                &&& (rules.pattern matches Some(p) ==> pattern_matches(p, names[i]))
            } by {
                if i < front.len() {
                    assert(front[i] == names[i]);
                    assert(front.take(i) == names.take(i));
                } else {
                    assert(fine(i));
                }
            }
        } else {
            if registry_issues(front, rules).len() > 0 {
                let i = choose|i: int|
                    #![trigger front[i]]
                    0 <= i < front.len() && !excluded(front[i], rules.excludes) && !({
                        &&& !front.take(i).contains(front[i])
                        &&& (rules.pattern matches Some(p) ==> pattern_matches(
                            p,
                            front[i],
                        ))
                    });
                assert(front.take(i) == names.take(i));
                assert(front[i] == names[i]);
            } else {
                assert(!fine(names.len() - 1));
            }
        }
    }
}

/// Templates have no problems exactly where every one that is checked could be
/// read, is named as its directory and has a subject.
pub proof fn clean_templates(found: Seq<Found<EmailTemplate>>, excludes: Seq<NamePattern>)
    ensures
        all_template_issues(found, excludes).len() == 0 <==> forall|i: int|
            0 <= i < found.len() ==> match (#[trigger] found[i]).value {
                Err(_) => false,
                Ok(t) => excluded(t@.name, excludes) || (t@.name == found[i].expected_name@
                    && t@.subject.len() > 0),
            },
    decreases found.len(),
{
    if found.len() > 0 {
        let front = found.drop_last();
        let n = found.len() - 1;
        clean_templates(front, excludes);
        assert forall|i: int| 0 <= i < front.len() implies front[i] == #[trigger] found[i] by {}
        assert(found[n] == found.last());
        if all_template_issues(found, excludes).len() == 0 {
            assert forall|i: int| 0 <= i < found.len() implies match (#[trigger] found[i]).value {
                Err(_) => false,
                Ok(t) => excluded(t@.name, excludes) || (t@.name == found[i].expected_name@
                    && t@.subject.len() > 0),
            } by {
                if i < n {
                    assert(front[i] == found[i]);
                }
            }
        }
        if forall|i: int|
            0 <= i < found.len() ==> match (#[trigger] found[i]).value {
                Err(_) => false,
                Ok(t) => excluded(t@.name, excludes) || (t@.name == found[i].expected_name@
                    && t@.subject.len() > 0),
            } {
            assert forall|i: int| 0 <= i < front.len() implies match (#[trigger] front[i]).value {
                Err(_) => false,
                Ok(t) => excluded(t@.name, excludes) || (t@.name == front[i].expected_name@
                    && t@.subject.len() > 0),
            } by {
                assert(front[i] == found[i]);
            }
        }
    }
}

/// Resources have no problems exactly where every one that is checked could be
/// read, is named as its place and matches the pattern.
pub proof fn clean_resources<T: Named>(found: Seq<Found<T>>, rules: Rules)
    ensures
        kind_issues(found, rules).len() == 0 <==> forall|i: int|
            0 <= i < found.len() ==> match (#[trigger] found[i]).value {
                Err(_) => false,
                Ok(t) => excluded(T::name_of(t@), rules.excludes@) || (T::name_of(t@)
                    == found[i].expected_name@ && (rules.pattern matches Some(p)
                    ==> pattern_matches(p.text(), T::name_of(t@)))),
            },
    decreases found.len(),
{
    if found.len() > 0 {
        let front = found.drop_last();
        let n = found.len() - 1;
        clean_resources(front, rules);
        assert(found[n] == found.last());
        if kind_issues(found, rules).len() == 0 {
            assert forall|i: int| 0 <= i < found.len() implies match (#[trigger] found[i]).value {
                Err(_) => false,
                Ok(t) => excluded(T::name_of(t@), rules.excludes@) || (T::name_of(t@)
                    == found[i].expected_name@ && (rules.pattern matches Some(p)
                    ==> pattern_matches(p.text(), T::name_of(t@)))),
            } by {
                if i < n {
                    assert(front[i] == found[i]);
                }
            }
        }
        if forall|i: int|
            0 <= i < found.len() ==> match (#[trigger] found[i]).value {
                Err(_) => false,
                Ok(t) => excluded(T::name_of(t@), rules.excludes@) || (T::name_of(t@)
                    == found[i].expected_name@ && (rules.pattern matches Some(p)
                    ==> pattern_matches(p.text(), T::name_of(t@)))),
            } {
            assert forall|i: int| 0 <= i < front.len() implies match (#[trigger] front[i]).value {
                Err(_) => false,
                Ok(t) => excluded(T::name_of(t@), rules.excludes@) || (T::name_of(t@)
                    == front[i].expected_name@ && (rules.pattern matches Some(p)
                    ==> pattern_matches(p.text(), T::name_of(t@)))),
            } by {
                assert(front[i] == found[i]);
            }
        }
    }
}

/// The tags in use have no problems exactly where each of them is declared or
/// managed elsewhere.
pub proof fn clean_tag_references(
    references: Seq<Seq<char>>,
    registry: Seq<TagView>,
    path: Seq<char>,
    excludes: Seq<NamePattern>,
)
    ensures
        undeclared_issues(references, registry, path, excludes).len() == 0 <==> forall|i: int|
            0 <= i < references.len() ==> excluded(#[trigger] references[i], excludes) || exists|
                j: int,
            |
                0 <= j < registry.len() && (#[trigger] registry[j]).name == references[i],
    decreases references.len(),
{
    let ns = names_of::<Tag>(registry);
    assert forall|x: Seq<char>| #[trigger] ns.contains(x) <==> exists|j: int|
        0 <= j < registry.len() && (#[trigger] registry[j]).name == x by {
        if ns.contains(x) {
            let j = choose|j: int| 0 <= j < ns.len() && ns[j] == x;
            assert(registry[j].name == x);
        }
        if exists|j: int| 0 <= j < registry.len() && (#[trigger] registry[j]).name == x {
            let j = choose|j: int| 0 <= j < registry.len() && (#[trigger] registry[j]).name == x;
            assert(ns[j] == x);
        }
    }
    if references.len() > 0 {
        let front = references.drop_last();
        let n = references.len() - 1;
        clean_tag_references(front, registry, path, excludes);
        assert(references[n] == references.last());
        assert forall|i: int| 0 <= i < n implies front[i] == #[trigger] references[i] by {}
        if undeclared_issues(references, registry, path, excludes).len() == 0 {
            assert forall|i: int| 0 <= i < references.len() implies excluded(
                #[trigger] references[i],
                excludes,
            ) || exists|j: int|
                0 <= j < registry.len() && (#[trigger] registry[j]).name == references[i] by {
                if i < n {
                    assert(front[i] == references[i]);
                } else {
                    assert(excluded(references[i], excludes) || ns.contains(references[i]));
                }
            }
        }
        if forall|i: int|
            0 <= i < references.len() ==> excluded(#[trigger] references[i], excludes) || exists|
                j: int,
            |
                0 <= j < registry.len() && (#[trigger] registry[j]).name == references[i] {
            assert forall|i: int| 0 <= i < front.len() implies excluded(
                #[trigger] front[i],
                excludes,
            ) || exists|j: int|
                0 <= j < registry.len() && (#[trigger] registry[j]).name == front[i] by {
                assert(front[i] == references[i]);
            }
            assert(excluded(references[n], excludes) || ns.contains(references[n]));
        }
    }
}

/// Each problem of a resource is listed under the path of that resource, and
/// adds to the problems of the others without hiding any.
pub proof fn problems_name_their_file<T: Named>(found: Seq<Found<T>>, rules: Rules, i: int)
    requires
        0 <= i < found.len(),
        match found[i].value {
            Err(_) => true,
            Ok(t) => !excluded(T::name_of(t@), rules.excludes@) && T::name_of(t@)
                != found[i].expected_name@,
        },
    ensures
        exists|k: int|
            0 <= k < kind_issues(found, rules).len() && (#[trigger] kind_issues(found, rules)[k]).path
                == found[i].path@ && kind_issues(found, rules)[k].message == match found[i].value {
                Err(e) => "parse error: "@ + e.text(),
                Ok(t) => rules.label@ + " name '"@ + T::name_of(t@) + "' does not match its "@
                    + rules.place@ + " '"@ + found[i].expected_name@ + "'"@,
            },
    decreases found.len(),
{
    let front = found.drop_last();
    let n = found.len() - 1;
    let all = kind_issues(found, rules);
    let before = kind_issues(front, rules);
    if i < n {
        assert(front[i] == found[i]);
        problems_name_their_file(front, rules, i);
        let k = choose|k: int|
            0 <= k < before.len() && (#[trigger] before[k]).path == found[i].path@
                && before[k].message == match found[i].value {
                Err(e) => "parse error: "@ + e.text(),
                Ok(t) => rules.label@ + " name '"@ + T::name_of(t@) + "' does not match its "@
                    + rules.place@ + " '"@ + found[i].expected_name@ + "'"@,
            };
        assert(all[k] == before[k]);
    } else {
        assert(found.last() == found[i]);
        let k = before.len() as int;
        assert(all[k] == resource_issues(found[i], rules)[0]);
    }
}

/// The same of email templates, and a template without a subject is named as
/// such.
pub proof fn template_problems_name_their_file(
    found: Seq<Found<EmailTemplate>>,
    excludes: Seq<NamePattern>,
    i: int,
)
    requires
        0 <= i < found.len(),
        match found[i].value {
            Err(_) => true,
            Ok(t) => !excluded(t@.name, excludes) && (t@.name != found[i].expected_name@
                || t@.subject.len() == 0),
        },
    ensures
        exists|k: int|
            0 <= k < all_template_issues(found, excludes).len() && (
            #[trigger] all_template_issues(found, excludes)[k]).path == found[i].path@
                && all_template_issues(found, excludes)[k].message == match found[i].value {
                Err(e) => "parse error: "@ + e.text(),
                Ok(t) => if t@.name != found[i].expected_name@ {
                    "email template"@ + " name '"@ + t@.name + "' does not match its "@
                        + "directory"@ + " '"@ + found[i].expected_name@ + "'"@
                } else {
                    "email template '"@ + t@.name + "' has an empty subject"@
                },
            },
    decreases found.len(),
{
    let front = found.drop_last();
    let n = found.len() - 1;
    let all = all_template_issues(found, excludes);
    let before = all_template_issues(front, excludes);
    if i < n {
        assert(front[i] == found[i]);
        template_problems_name_their_file(front, excludes, i);
        let k = choose|k: int|
            0 <= k < before.len() && (#[trigger] before[k]).path == found[i].path@
                && before[k].message == match found[i].value {
                Err(e) => "parse error: "@ + e.text(),
                Ok(t) => if t@.name != found[i].expected_name@ {
                    "email template"@ + " name '"@ + t@.name + "' does not match its "@
                        + "directory"@ + " '"@ + found[i].expected_name@ + "'"@
                } else {
                    "email template '"@ + t@.name + "' has an empty subject"@
                },
            };
        assert(all[k] == before[k]);
    } else {
        assert(found.last() == found[i]);
        let k = before.len() as int;
        assert(all[k] == template_issues(found[i], excludes)[0]);
    }
}

/// A name that is listed again, or does not match the pattern, is a problem of
/// the registry, unless it is managed elsewhere.
pub proof fn registry_problems_name_the_entry(
    names: Seq<Seq<char>>,
    rules: RegistryRulesView,
    i: int,
)
    requires
        0 <= i < names.len(),
        !excluded(names[i], rules.excludes),
        names.take(i).contains(names[i]) || (rules.pattern matches Some(p) && !pattern_matches(
            p,
            names[i],
        )),
    ensures
        exists|k: int|
            0 <= k < registry_issues(names, rules).len() && #[trigger] registry_issues(
                names,
                rules,
            )[k] == (IssueView {
                path: rules.path,
                message: if names.take(i).contains(names[i]) {
                    "duplicate "@ + rules.label + " name '"@ + names[i] + "'"@
                } else {
                    rules.label + " name '"@ + names[i] + "' does not match "@ + rules.key
                        + " '"@ + rules.pattern->0 + "'"@
                },
            }),
    decreases names.len(),
{
    let front = names.drop_last();
    let n = names.len() - 1;
    let all = registry_issues(names, rules);
    let before = registry_issues(front, rules);
    let wanted = IssueView {
        path: rules.path,
        message: if names.take(i).contains(names[i]) {
            "duplicate "@ + rules.label + " name '"@ + names[i] + "'"@
        } else {
            rules.label + " name '"@ + names[i] + "' does not match "@ + rules.key + " '"@
                + rules.pattern->0 + "'"@
        },
    };
    if i < n {
        assert(front[i] == names[i]);
        assert(front.take(i) =~= names.take(i));
        registry_problems_name_the_entry(front, rules, i);
        let k = choose|k: int| 0 <= k < before.len() && #[trigger] before[k] == wanted;
        assert(all[k] == before[k]);
    } else {
        assert(names.take(i) =~= front);
        let k = before.len() as int;
        assert(all[k] == entry_issues(front, names[i], rules)[0]);
    }
}

/// Every problem is shown to the operator: the report has the line of each.
pub proof fn report_shows_every_problem(issues: Seq<IssueView>, i: int)
    requires
        0 <= i < issues.len(),
    ensures
        occurs_in("  • "@ + issues[i].path + ": "@ + issues[i].message + "\n"@, issue_report(issues)),
{
    let line = "  • "@ + issues[i].path + ": "@ + issues[i].message + "\n"@;
    let at = lemma_line_shown(issues, i);
    let head = "✗ Validation found "@ + decimal(issues.len()) + " issue(s):\n"@;
    let report = issue_report(issues);
    assert(report =~= head + issue_lines(issues));
    assert(report.subrange(head.len() + at, head.len() + at + line.len()) =~= issue_lines(
        issues,
    ).subrange(at, at + line.len()));
    assert(crate::text::occurs_at(line, report, head.len() + at));
}

proof fn lemma_line_shown(issues: Seq<IssueView>, i: int) -> (at: int)
    requires
        0 <= i < issues.len(),
    ensures
        crate::text::occurs_at(
            "  • "@ + issues[i].path + ": "@ + issues[i].message + "\n"@,
            issue_lines(issues),
            at,
        ),
    decreases issues.len(),
{
    let line = "  • "@ + issues[i].path + ": "@ + issues[i].message + "\n"@;
    let before = issue_lines(issues.drop_last());
    let all = issue_lines(issues);
    let last = issues.last();
    assert(all =~= before + ("  • "@ + last.path + ": "@ + last.message + "\n"@));
    if i == issues.len() - 1 {
        assert(all.subrange(before.len() as int, (before.len() + line.len()) as int) =~= line);
        before.len() as int
    } else {
        let at = lemma_line_shown(issues.drop_last(), i);
        assert(all.subrange(at, at + line.len()) =~= before.subrange(at, at + line.len()));
        at
    }
}

/// A tag that is used but neither declared nor managed elsewhere is named, at
/// the registry that lacks it.
pub proof fn undeclared_tag_is_named(
    references: Seq<Seq<char>>,
    registry: Seq<TagView>,
    path: Seq<char>,
    excludes: Seq<NamePattern>,
    i: int,
) -> (k: int)
    requires
        0 <= i < references.len(),
        !excluded(references[i], excludes),
        forall|j: int| 0 <= j < registry.len() ==> (#[trigger] registry[j]).name != references[i],
    ensures
        0 <= k < undeclared_issues(references, registry, path, excludes).len(),
        undeclared_issues(references, registry, path, excludes)[k].path == path,
        ("tag '"@ + references[i] + "'"@).is_prefix_of(
            undeclared_issues(references, registry, path, excludes)[k].message,
        ),
    decreases references.len(),
{
    let front = references.drop_last();
    let all = undeclared_issues(references, registry, path, excludes);
    if i == references.len() - 1 {
        let name = references[i];
        let ns = names_of::<Tag>(registry);
        if ns.contains(name) {
            let j = choose|j: int| 0 <= j < ns.len() && ns[j] == name;
            assert(registry[j].name == name);
        }
        reveal_strlit("'");
        reveal_strlit("' is referenced by a local resource but not declared");
        let k = all.len() - 1;
        let h = "tag '"@ + name + "'"@;
        assert(all[k].message.take(h.len() as int) =~= h);
        k
    } else {
        assert(front[i] == references[i]);
        undeclared_tag_is_named(front, registry, path, excludes, i)
    }
}

/// What is said of a pattern for names that does not compile gives where it
/// stands, the pattern, and at the end what is wrong with it.
pub proof fn bad_pattern_is_described(key: Seq<char>, raw: Seq<char>, problem: Seq<char>)
    ensures
        ("invalid "@ + key + " regex "@ + quoted(raw)).is_prefix_of(bad_pattern(key, raw, problem)),
        problem.is_suffix_of(bad_pattern(key, raw, problem)),
{
    let t = bad_pattern(key, raw, problem);
    let h = "invalid "@ + key + " regex "@ + quoted(raw);
    assert(t.take(h.len() as int) =~= h);
    assert(t.skip(t.len() - problem.len()) =~= problem);
}

} // verus!

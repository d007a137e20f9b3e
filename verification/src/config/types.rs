//! Validated names and dependency references.

use vstd::prelude::*;

use crate::error::{ParseError, ParseErrorView};

verus! {

/// A character allowed in project and target names.
pub open spec fn is_name_char(c: char) -> bool {
    ||| ('a' <= c && c <= 'z')
    ||| ('0' <= c && c <= '9')
    ||| c == '-'
    ||| c == '_'
}

/// A valid project or target name: non-empty, lowercase alphanumeric characters,
/// hyphens and underscores only.
pub open spec fn valid_name(s: Seq<char>) -> bool {
    &&& s.len() > 0
    &&& forall|i: int| 0 <= i < s.len() ==> is_name_char(#[trigger] s[i])
}

/// Why `s` is not a valid name (meaningful only when it is not).
pub open spec fn name_rejection(s: Seq<char>) -> Seq<char> {
    if s.len() == 0 {
        "must not be empty"@
    } else {
        "must contain only lowercase alphanumeric characters, hyphens, and underscores"@
    }
}

pub fn is_name_char_exec(c: char) -> (r: bool)
    ensures
        r == is_name_char(c),
{
    ('a' <= c && c <= 'z') || ('0' <= c && c <= '9') || c == '-' || c == '_'
}

/// `None` when `s` is a valid name, else the reason it is rejected.
fn rejection_reason(s: &str) -> (r: Option<String>)
    ensures
        r is None <==> valid_name(s@),
        r matches Some(m) ==> m@ == name_rejection(s@),
{
    let n = s.unicode_len();
    if n == 0 {
        return Some("must not be empty".to_owned());
    }
    let mut i: usize = 0;
    while i < n
        invariant
            n == s@.len(),
            i <= n,
            forall|k: int| 0 <= k < i ==> is_name_char(#[trigger] s@[k]),
        decreases n - i,
    {
        if !is_name_char_exec(s.get_char(i)) {
            return Some(
                "must contain only lowercase alphanumeric characters, hyphens, and underscores".to_owned(),
            );
        }
        i = i + 1;
    }
    None
}

/// A validated project name.
///
/// Must be non-empty and contain only lowercase alphanumeric characters, hyphens, and underscores.
#[derive(Debug, PartialEq, Eq, Hash)]
pub struct ProjectName(String);

impl ProjectName {
    #[verifier::type_invariant]
    spec fn inv(self) -> bool {
        valid_name(self.0@)
    }
}

impl View for ProjectName {
    type V = Seq<char>;

    closed spec fn view(&self) -> Seq<char> {
        self.0@
    }
}

impl Clone for ProjectName {
    fn clone(&self) -> (r: Self)
        ensures
            r@ == self@,
    {
        proof {
            use_type_invariant(self);
        }
        ProjectName(self.0.clone())
    }
}

impl ProjectName {
    /// Validates `s` as a project name.
    pub fn new(s: &str) -> (r: Result<Self, ParseError>)
        ensures
            r is Ok <==> valid_name(s@),
            r matches Ok(n) ==> n@ == s@,
            r matches Err(e) ==> e@ == (ParseErrorView::ProjectName {
                value: s@,
                reason: name_rejection(s@),
            }),
    {
        match rejection_reason(s) {
            None => Ok(ProjectName(s.to_owned())),
            Some(reason) => Err(ParseError::ProjectName { value: s.to_owned(), reason }),
        }
    }

    pub fn as_str(&self) -> (r: &str)
        ensures
            r@ == self@,
            valid_name(r@),
    {
        proof {
            use_type_invariant(self);
        }
        self.0.as_str()
    }

    /// The name as text (what `Display` writes).
    pub fn to_string(&self) -> (r: String)
        ensures
            r@ == self@,
            valid_name(r@),
    {
        proof {
            use_type_invariant(self);
        }
        self.0.clone()
    }

    /// Whether two names are the same.
    pub fn same(&self, other: &Self) -> (r: bool)
        ensures
            r == (self@ == other@),
    {
        self.0.eq(&other.0)
    }
}

impl core::str::FromStr for ProjectName {
    type Err = ParseError;

    fn from_str(s: &str) -> (r: Result<Self, ParseError>)
        ensures
            r is Ok <==> valid_name(s@),
            r matches Ok(n) ==> n@ == s@,
            r matches Err(e) ==> e@ == (ParseErrorView::ProjectName {
                value: s@,
                reason: name_rejection(s@),
            }),
    {
        Self::new(s)
    }
}

/// A validated target name (e.g., "build", "test", "lint").
///
/// Must be non-empty and contain only lowercase alphanumeric characters, hyphens, and underscores.
#[derive(Debug, PartialEq, Eq, Hash)]
pub struct TargetName(String);

impl TargetName {
    #[verifier::type_invariant]
    spec fn inv(self) -> bool {
        valid_name(self.0@)
    }
}

impl View for TargetName {
    type V = Seq<char>;

    closed spec fn view(&self) -> Seq<char> {
        self.0@
    }
}

impl Clone for TargetName {
    fn clone(&self) -> (r: Self)
        ensures
            r@ == self@,
    {
        proof {
            use_type_invariant(self);
        }
        TargetName(self.0.clone())
    }
}

impl TargetName {
    /// Validates `s` as a target name.
    pub fn new(s: &str) -> (r: Result<Self, ParseError>)
        ensures
            r is Ok <==> valid_name(s@),
            r matches Ok(n) ==> n@ == s@,
            r matches Err(e) ==> e@ == (ParseErrorView::TargetName {
                value: s@,
                reason: name_rejection(s@),
            }),
    {
        match rejection_reason(s) {
            None => Ok(TargetName(s.to_owned())),
            Some(reason) => Err(ParseError::TargetName { value: s.to_owned(), reason }),
        }
    }

    pub fn as_str(&self) -> (r: &str)
        ensures
            r@ == self@,
            valid_name(r@),
    {
        proof {
            use_type_invariant(self);
        }
        self.0.as_str()
    }

    /// The name as text (what `Display` writes).
    pub fn to_string(&self) -> (r: String)
        ensures
            r@ == self@,
            valid_name(r@),
    {
        proof {
            use_type_invariant(self);
        }
        self.0.clone()
    }

    /// Whether two names are the same.
    pub fn same(&self, other: &Self) -> (r: bool)
        ensures
            r == (self@ == other@),
    {
        self.0.eq(&other.0)
    }
}

impl core::str::FromStr for TargetName {
    type Err = ParseError;

    fn from_str(s: &str) -> (r: Result<Self, ParseError>)
        ensures
            r is Ok <==> valid_name(s@),
            r matches Ok(n) ==> n@ == s@,
            r matches Err(e) ==> e@ == (ParseErrorView::TargetName {
                value: s@,
                reason: name_rejection(s@),
            }),
    {
        Self::new(s)
    }
}

/// A dependency reference in a target's `depends_on` list.
///
/// - `"build"` — depends on the local `build` target in the same project.
/// - `"^build"` — depends on the `build` target in all dependency projects.
#[derive(Debug, PartialEq, Eq, Hash)]
pub enum DependsOn {
    /// Depends on a target in the same project.
    Local(TargetName),
    /// Depends on a target in upstream dependency projects (prefixed with `^`).
    Upstream(TargetName),
}

/// A `DependsOn` with its target name taken as a character sequence.
pub enum DependsOnView {
    Local(Seq<char>),
    Upstream(Seq<char>),
}

impl DependsOnView {
    pub open spec fn target(self) -> Seq<char> {
        match self {
            DependsOnView::Local(n) => n,
            DependsOnView::Upstream(n) => n,
        }
    }

    pub open spec fn is_upstream(self) -> bool {
        self is Upstream
    }
}

impl View for DependsOn {
    type V = DependsOnView;

    open spec fn view(&self) -> DependsOnView {
        match self {
            DependsOn::Local(n) => DependsOnView::Local(n@),
            DependsOn::Upstream(n) => DependsOnView::Upstream(n@),
        }
    }
}

/// The views of a sequence of dependency references.
pub open spec fn depends_view(v: Seq<DependsOn>) -> Seq<DependsOnView> {
    v.map_values(|d: DependsOn| d@)
}

/// The views of a sequence of project names.
pub open spec fn names_view(v: Seq<ProjectName>) -> Seq<Seq<char>> {
    v.map_values(|n: ProjectName| n@)
}

/// The text form of a dependency reference: the target name, after `^` when upstream.
pub open spec fn depends_on_text(d: DependsOnView) -> Seq<char> {
    match d {
        DependsOnView::Local(n) => n,
        DependsOnView::Upstream(n) => seq!['^'] + n,
    }
}

/// How a `depends_on` entry is read.
pub open spec fn parse_depends_on(s: Seq<char>) -> Result<DependsOnView, ParseErrorView> {
    if s.len() == 0 {
        Err(ParseErrorView::DependsOn { value: s, reason: "must not be empty"@ })
    } else if s[0] == '^' {
        let rest = s.subrange(1, s.len() as int);
        if valid_name(rest) {
            Ok(DependsOnView::Upstream(rest))
        } else {
            Err(
                ParseErrorView::DependsOn {
                    value: s,
                    reason: "invalid target name after '^': '"@ + rest + "'"@,
                },
            )
        }
    } else if valid_name(s) {
        Ok(DependsOnView::Local(s))
    } else {
        Err(ParseErrorView::DependsOn { value: s, reason: "invalid target name: '"@ + s + "'"@ })
    }
}

impl DependsOn {
    pub fn target_name(&self) -> (r: &TargetName)
        ensures
            r@ == self@.target(),
    {
        match self {
            DependsOn::Local(name) => name,
            DependsOn::Upstream(name) => name,
        }
    }

    pub fn is_upstream(&self) -> (r: bool)
        ensures
            r == self@.is_upstream(),
    {
        match self {
            DependsOn::Local(_) => false,
            DependsOn::Upstream(_) => true,
        }
    }

    /// Parses a `depends_on` entry: `"name"` is local, `"^name"` is upstream.
    pub fn parse(s: &str) -> (r: Result<DependsOn, ParseError>)
        ensures
            match r {
                Ok(d) => parse_depends_on(s@) == Ok::<DependsOnView, ParseErrorView>(d@),
                Err(e) => parse_depends_on(s@) == Err::<DependsOnView, ParseErrorView>(e@),
            },
    {
        let n = s.unicode_len();
        if n == 0 {
            return Err(
                ParseError::DependsOn {
                    value: s.to_owned(),
                    reason: "must not be empty".to_owned(),
                },
            );
        }
        if s.get_char(0) == '^' {
            let rest = s.substring_char(1, n);
            match TargetName::new(rest) {
                Ok(t) => Ok(DependsOn::Upstream(t)),
                Err(_) => {
                    let mut reason = "invalid target name after '^': '".to_owned();
                    reason.append(rest);
                    reason.append("'");
                    Err(ParseError::DependsOn { value: s.to_owned(), reason })
                },
            }
        } else {
            match TargetName::new(s) {
                Ok(t) => Ok(DependsOn::Local(t)),
                Err(_) => {
                    let mut reason = "invalid target name: '".to_owned();
                    reason.append(s);
                    reason.append("'");
                    Err(ParseError::DependsOn { value: s.to_owned(), reason })
                },
            }
        }
    }

    /// The reference as text (what `Display` writes): `name` or `^name`.
    pub fn to_string(&self) -> (r: String)
        ensures
            r@ == depends_on_text(self@),
            parse_depends_on(r@) == Ok::<DependsOnView, ParseErrorView>(self@),
    {
        match self {
            DependsOn::Local(n) => {
                let r = n.to_string();
                proof {
                    lemma_depends_on_text_parses(self@);
                }
                r
            },
            DependsOn::Upstream(n) => {
                let name = n.as_str();
                proof {
                    reveal_strlit("^");
                    lemma_depends_on_text_parses(self@);
                }
                let mut s = "^".to_owned();
                s.append(name);
                s
            },
        }
    }
}

impl Clone for DependsOn {
    fn clone(&self) -> (r: Self)
        ensures
            r@ == self@,
    {
        match self {
            DependsOn::Local(n) => DependsOn::Local(n.clone()),
            DependsOn::Upstream(n) => DependsOn::Upstream(n.clone()),
        }
    }
}

impl core::str::FromStr for DependsOn {
    type Err = ParseError;

    fn from_str(s: &str) -> (r: Result<Self, ParseError>)
        ensures
            match r {
                Ok(d) => parse_depends_on(s@) == Ok::<DependsOnView, ParseErrorView>(d@),
                Err(e) => parse_depends_on(s@) == Err::<DependsOnView, ParseErrorView>(e@),
            },
    {
        DependsOn::parse(s)
    }
}

/// Writing a dependency reference as text and reading it back gives the same reference.
pub proof fn lemma_depends_on_text_parses(d: DependsOnView)
    requires
        valid_name(d.target()),
    ensures
        parse_depends_on(depends_on_text(d)) == Ok::<DependsOnView, ParseErrorView>(d),
{
    match d {
        DependsOnView::Local(n) => {
            assert(is_name_char(n[0]));
        },
        DependsOnView::Upstream(n) => {
            let s = seq!['^'] + n;
            assert(s.subrange(1, s.len() as int) =~= n);
        },
    }
}

/// A `depends_on` entry that is accepted reads back as exactly the text it was parsed from.
pub proof fn lemma_parsed_depends_on_text(s: Seq<char>)
    ensures
        parse_depends_on(s) matches Ok(d) ==> depends_on_text(d) == s && valid_name(d.target()),
{
    if s.len() > 0 && s[0] == '^' {
        let rest = s.subrange(1, s.len() as int);
        assert(seq!['^'] + rest =~= s);
    }
}

} // verus!

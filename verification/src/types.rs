//! Core identity and path types.
//!
//! A package is identified by a `TargetName`: a posix-style path
//! relative to the workspace root, with no absolute prefix, no empty
//! component and no `.` or `..` component. A `RawTarget` wraps such a
//! name before any build system has been inferred for the directory; a
//! `Target` pairs the name with the inferred build-system flavor.
//! `BuildSystemPath` carries a relative path exactly as a manifest file
//! wrote it, tagged with its notation, until it is resolved against the
//! declaring package. The `Repository` trait abstracts content access
//! and carries the resolution algorithm as a default method.

use vstd::prelude::*;

use crate::paths::{dot, dotdot, is_dot, is_dotdot, norm_path, normalize_path, posix_to_win,
    win_separators, NormalizeError};
use crate::strutil::{split_on, split_str, str_eq, views_of};

verus! {

/// Why a string was rejected as a canonical target name.
#[derive(Debug, Clone, Copy, PartialEq, Eq, Structural)]
pub enum ValidationError {
    /// The name was empty.
    Empty,
    /// The name began with `/`.
    Absolute,
    /// The name held an empty component, as in `a//b`.
    EmptyComponent,
    /// The name held a `.` or `..` component.
    DotComponent,
}

/// A single path component a canonical name may hold.
pub open spec fn valid_component(c: Seq<char>) -> bool {
    c.len() > 0 && c != dot() && c != dotdot()
}

/// The canonical-name invariant: non-empty, and every `/`-separated
/// component is non-empty and neither `.` nor `..`. An absolute name is
/// excluded because its first component would be empty.
pub open spec fn valid_name(s: Seq<char>) -> bool {
    s.len() > 0 && forall|i: int|
        0 <= i < split_on(s, '/').len() ==> valid_component(#[trigger] split_on(s, '/')[i])
}

/// The first rule of `valid_component` that the components `cs` break,
/// scanning left to right.
pub open spec fn component_violation(cs: Seq<Seq<char>>) -> Option<ValidationError>
    decreases cs.len(),
{
    if cs.len() == 0 {
        None
    } else if cs[0].len() == 0 {
        Some(ValidationError::EmptyComponent)
    } else if cs[0] == dot() || cs[0] == dotdot() {
        Some(ValidationError::DotComponent)
    } else {
        component_violation(cs.drop_first())
    }
}

/// The first rule that `s` breaks as a canonical name, in the order the
/// rules are checked: emptiness, absoluteness, then each component.
pub open spec fn name_violation(s: Seq<char>) -> Option<ValidationError> {
    if s.len() == 0 {
        Some(ValidationError::Empty)
    } else if s[0] == '/' {
        Some(ValidationError::Absolute)
    } else {
        component_violation(split_on(s, '/'))
    }
}

pub proof fn lemma_component_violation(cs: Seq<Seq<char>>)
    ensures
        component_violation(cs) is None <==> forall|i: int|
            0 <= i < cs.len() ==> valid_component(#[trigger] cs[i]),
    decreases cs.len(),
{
    if cs.len() > 0 && valid_component(cs[0]) {
        lemma_component_violation(cs.drop_first());
        if component_violation(cs) is None {
            assert forall|i: int| 0 <= i < cs.len() implies valid_component(#[trigger] cs[i]) by {
                if i > 0 {
                    assert(cs.drop_first()[i - 1] == cs[i]);
                }
            }
        } else {
            let i = choose|i: int| 0 <= i < cs.drop_first().len()
                && !valid_component(cs.drop_first()[i]);
            assert(cs[i + 1] == cs.drop_first()[i]);
        }
    }
}

/// A name is valid exactly when no rule is broken.
pub proof fn lemma_name_violation_iff(s: Seq<char>)
    ensures
        name_violation(s) is None <==> valid_name(s),
{
    lemma_component_violation(split_on(s, '/'));
    if s.len() > 0 && s[0] == '/' {
        // the leading slash makes the first component empty
        crate::strutil::lemma_split_on_nonempty(s, '/');
        lemma_split_first_piece(s, '/');
    }
}

/// The first piece of a split runs up to the first delimiter, so it is
/// empty whenever the string begins with the delimiter.
pub proof fn lemma_split_first_piece(s: Seq<char>, c: char)
    requires
        s.len() > 0,
        s[0] == c,
    ensures
        split_on(s, c).len() >= 2 && split_on(s, c)[0].len() == 0,
    decreases s.len(),
{
    crate::strutil::lemma_split_on_nonempty(s, c);
    if s.len() == 1 {
        assert(s.drop_last() =~= Seq::<char>::empty());
        assert(split_on(s.drop_last(), c) =~= seq![Seq::<char>::empty()]);
        assert(split_on(s, c) =~= seq![Seq::<char>::empty(), Seq::<char>::empty()]);
    } else {
        lemma_split_first_piece(s.drop_last(), c);
        crate::strutil::lemma_split_on_nonempty(s.drop_last(), c);
    }
}

/// A validated canonical package name: the unique identifier of a
/// package directory, as a posix path relative to the workspace root.
#[derive(Debug, Eq)]
pub struct TargetName(String);

impl View for TargetName {
    type V = Seq<char>;

    closed spec fn view(&self) -> Seq<char> {
        self.0@
    }
}

impl PartialEq for TargetName {
    fn eq(&self, other: &TargetName) -> (r: bool) {
        self.0 == other.0
    }
}

impl vstd::std_specs::cmp::PartialEqSpecImpl for TargetName {
    open spec fn obeys_eq_spec() -> bool {
        true
    }

    open spec fn eq_spec(&self, other: &TargetName) -> bool {
        self@ == other@
    }
}

impl Clone for TargetName {
    fn clone(&self) -> (r: Self)
        ensures
            r == *self,
    {
        proof {
            use_type_invariant(&*self);
        }
        TargetName(self.0.clone())
    }
}

impl TargetName {
    /// The invariant every value of this type carries: its text is a
    /// valid canonical name.
    #[verifier::type_invariant]
    pub open spec fn wf(self) -> bool {
        valid_name(self@)
    }

    /// Validates `name` and wraps it; says exactly which rule failed.
    pub fn new(name: String) -> (r: Result<Self, ValidationError>)
        ensures
            match r {
                Ok(t) => t@ == name@ && valid_name(name@),
                Err(e) => name_violation(name@) == Some(e),
            },
    {
        match Self::validate(name.as_str()) {
            Ok(()) => {
                proof {
                    lemma_name_violation_iff(name@);
                }
                Ok(TargetName(name))
            },
            Err(e) => Err(e),
        }
    }

    pub fn to_string_ref<'a>(&'a self) -> (r: &'a String)
        ensures
            r@ == self@,
    {
        &self.0
    }

    fn validate(name: &str) -> (r: Result<(), ValidationError>)
        ensures
            match r {
                Ok(()) => name_violation(name@) is None,
                Err(e) => name_violation(name@) == Some(e),
            },
    {
        if name.unicode_len() == 0 {
            return Err(ValidationError::Empty);
        }
        if name.get_char(0) == '/' {
            return Err(ValidationError::Absolute);
        }
        let parts = split_str(name, '/');
        let ghost cs = views_of(parts@);
        let mut k: usize = 0;
        proof {
            assert(cs.skip(0) =~= cs);
        }
        while k < parts.len()
            invariant
                k <= parts@.len(),
                cs == views_of(parts@),
                cs == split_on(name@, '/'),
                name@.len() > 0,
                name@[0] != '/',
                component_violation(cs) == component_violation(cs.skip(k as int)),
            decreases parts@.len() - k,
        {
            let part = &parts[k];
            proof {
                assert(cs.skip(k as int)[0] == part@);
                assert(cs.skip(k as int).drop_first() =~= cs.skip(k + 1));
            }
            if part.as_str().is_empty() {
                return Err(ValidationError::EmptyComponent);
            }
            if is_dot(part.as_str()) || is_dotdot(part.as_str()) {
                return Err(ValidationError::DotComponent);
            }
            k += 1;
        }
        proof {
            assert(cs.skip(parts@.len() as int) =~= Seq::<Seq<char>>::empty());
        }
        Ok(())
    }
}

/// The view of a `Target`: its two identity components.
pub struct TargetView {
    pub name: Seq<char>,
    pub flavor: Seq<char>,
}

/// A graph node: a canonical package name paired with the build-system
/// flavor that was inferred for the directory. Identity is the whole
/// pair, so one directory may yield several targets, one per flavor.
#[derive(Debug, Eq)]
pub struct Target {
    pub name: TargetName,
    pub flavor: String,
}

impl View for Target {
    type V = TargetView;

    open spec fn view(&self) -> TargetView {
        TargetView { name: self.name@, flavor: self.flavor@ }
    }
}

impl PartialEq for Target {
    fn eq(&self, other: &Target) -> (r: bool) {
        self.name == other.name && self.flavor == other.flavor
    }
}

impl vstd::std_specs::cmp::PartialEqSpecImpl for Target {
    open spec fn obeys_eq_spec() -> bool {
        true
    }

    open spec fn eq_spec(&self, other: &Target) -> bool {
        self@ == other@
    }
}

impl Clone for Target {
    fn clone(&self) -> (r: Self)
        ensures
            r == *self,
    {
        let r = Target { name: self.name.clone(), flavor: self.flavor.clone() };
        r
    }
}

impl Target {
    pub fn new(name: TargetName, flavor: String) -> (r: Self)
        ensures
            r@.name == name@ && r@.flavor == flavor@,
    {
        Target { name, flavor }
    }

    pub fn from_string_name(name: String, flavor: String) -> (r: Result<Self, ValidationError>)
        ensures
            match r {
                Ok(t) => t@.name == name@ && t@.flavor == flavor@ && valid_name(name@),
                Err(e) => name_violation(name@) == Some(e),
            },
    {
        Ok(Self::new(TargetName::new(name)?, flavor))
    }

    /// Stamping a flavor onto an already-validated raw target never
    /// fails.
    pub fn from_raw_target(rt: &RawTarget, flavor: String) -> (r: Result<Self, ValidationError>)
        ensures
            r matches Ok(t) && t@.name == rt.name@ && t@.flavor == flavor@,
    {
        proof {
            use_type_invariant(&rt.name);
            lemma_name_violation_iff(rt.name@);
        }
        Target::from_string_name(rt.name.to_string_ref().clone(), flavor)
    }

    pub fn name_as_string_ref<'a>(&'a self) -> (r: &'a String)
        ensures
            r@ == self@.name,
    {
        self.name.to_string_ref()
    }

    /// The textual form of the node, `name:flavor`.
    pub fn render(&self) -> (r: String)
        ensures
            r@ == self@.name + seq![':'] + self@.flavor,
    {
        let mut out = self.name.to_string_ref().clone();
        out.append(":");
        out.append(self.flavor.as_str());
        proof {
            reveal_strlit(":");
            assert(out@ =~= self@.name + seq![':'] + self@.flavor);
        }
        out
    }
}

/// A package directory whose build-system identity is not yet known:
/// what discovery yields and inference consumes.
#[derive(Debug, Eq)]
pub struct RawTarget {
    pub name: TargetName,
}

impl PartialEq for RawTarget {
    fn eq(&self, other: &RawTarget) -> (r: bool) {
        self.name == other.name
    }
}

impl vstd::std_specs::cmp::PartialEqSpecImpl for RawTarget {
    open spec fn obeys_eq_spec() -> bool {
        true
    }

    open spec fn eq_spec(&self, other: &RawTarget) -> bool {
        self.name@ == other.name@
    }
}

impl Clone for RawTarget {
    fn clone(&self) -> (r: Self)
        ensures
            r == *self,
    {
        RawTarget { name: self.name.clone() }
    }
}

impl RawTarget {
    pub fn new(name: TargetName) -> (r: Self)
        ensures
            r.name == name,
    {
        Self { name }
    }

    pub fn from_string_name(name: String) -> (r: Result<Self, ValidationError>)
        ensures
            match r {
                Ok(t) => t.name@ == name@ && valid_name(name@),
                Err(e) => name_violation(name@) == Some(e),
            },
    {
        Ok(Self::new(TargetName::new(name)?))
    }
}

/// The notation a manifest wrote a relative path in: portable posix
/// separators, or whatever the host uses.
#[derive(Debug, Clone, Copy)]
pub enum PathFormat {
    Posix,
    Host,
}

/// A relative path taken verbatim from a build-system manifest, tagged
/// with its notation. Never assumed canonical: it must be resolved
/// against the declaring package before use.
#[derive(Debug)]
pub struct BuildSystemPath {
    pub raw: String,
    pub format: PathFormat,
}

impl BuildSystemPath {
    pub fn new(raw: String, format: PathFormat) -> (r: Self)
        ensures
            r.raw == raw && r.format == format,
    {
        Self { raw, format }
    }

    /// The path in the convention of the host: posix notation gets its
    /// separators converted when the host wants backslashes, host
    /// notation passes through unchanged.
    pub fn get_host_path(&self, windows_host: bool) -> (r: String)
        ensures
            r@ == if windows_host && self.format is Posix {
                win_separators(self.raw@)
            } else {
                self.raw@
            },
    {
        if windows_host {
            match self.format {
                PathFormat::Posix => posix_to_win(self.raw.as_str()),
                PathFormat::Host => self.raw.clone(),
            }
        } else {
            self.raw.clone()
        }
    }

    /// Whether the raw path is absolute, in the posix sense.
    pub fn is_absolute(&self) -> (r: bool)
        ensures
            r == (self.raw@.len() > 0 && self.raw@[0] == '/'),
    {
        self.raw.as_str().unicode_len() > 0 && self.raw.as_str().get_char(0) == '/'
    }
}

/// Why a manifest-relative path could not be resolved to a canonical
/// name.
#[derive(Debug, Clone, Copy, PartialEq, Eq, Structural)]
pub enum ResolveError {
    /// Normalization popped above the workspace root.
    EscapesWorkspace,
    /// The normalized path is no valid canonical name.
    InvalidName(ValidationError),
}

/// A manifest path joined onto the declaring package's path: an
/// absolute path replaces the base, anything else is appended.
pub open spec fn joined_path(base: Seq<char>, rel: Seq<char>) -> Seq<char> {
    if rel.len() > 0 && rel[0] == '/' {
        rel
    } else {
        base + seq!['/'] + rel
    }
}

/// What resolving `rel` against the package at `base` yields: the
/// joined path is normalized, then held to the canonical-name rules.
pub open spec fn spec_resolve(base: Seq<char>, rel: Seq<char>) -> Result<Seq<char>, ResolveError> {
    match norm_path(joined_path(base, rel)) {
        None => Err(ResolveError::EscapesWorkspace),
        Some(p) => match name_violation(p) {
            Some(e) => Err(ResolveError::InvalidName(e)),
            None => Ok(p),
        },
    }
}

/// Access to the repository the packages live in: a filesystem in
/// production, a plain table in tests. Nothing is promised of
/// `get_content`; callers state what holds whatever comes back.
pub trait Repository {
    /// The content stored at `path`, or `None` when nothing is there.
    fn get_content(&self, path: &str) -> Option<String>;

    /// The root directory the whole package set is relative to.
    fn workspace_root(&self) -> &str;

    /// Resolves a manifest-relative path against the declaring package:
    /// join, normalize, and validate the result as a canonical name.
    fn resolve_rel_path(&self, rel_path: &BuildSystemPath, rel_to: &RawTarget) -> (r: Result<
        RawTarget,
        ResolveError,
    >)
        ensures
            match r {
                Ok(rt) => spec_resolve(rel_to.name@, rel_path.raw@) == Ok::<
                    Seq<char>,
                    ResolveError,
                >(rt.name@),
                Err(e) => spec_resolve(rel_to.name@, rel_path.raw@) == Err::<
                    Seq<char>,
                    ResolveError,
                >(e),
            },
    {
        let base = self.target_name_to_path(&rel_to.name);
        let raw = rel_path.raw.as_str();
        let joined: String;
        if raw.unicode_len() > 0 && raw.get_char(0) == '/' {
            joined = rel_path.raw.clone();
        } else {
            let mut j = base;
            j.append("/");
            j.append(raw);
            proof {
                reveal_strlit("/");
                assert(j@ =~= joined_path(rel_to.name@, rel_path.raw@));
            }
            joined = j;
        }
        match normalize_path(joined.as_str()) {
            Err(NormalizeError::EscapesRoot) => Err(ResolveError::EscapesWorkspace),
            Ok(p) => {
                let ghost pv = p@;
                proof {
                    lemma_name_violation_iff(pv);
                }
                match RawTarget::from_string_name(p) {
                    Ok(rt) => Ok(rt),
                    Err(e) => Err(ResolveError::InvalidName(e)),
                }
            },
        }
    }

    /// A canonical name as a path of the host; the identity mapping on
    /// posix hosts, which this library's path model assumes throughout.
    fn target_name_to_path(&self, t: &TargetName) -> (r: String)
        ensures
            r@ == t@,
    {
        t.to_string_ref().clone()
    }
}

/// An in-memory repository: a table from path to content, for tests
/// and for exercising inference without a filesystem.
#[derive(Debug, Clone)]
pub struct MockRepo {
    fake: Vec<(String, String)>,
    workspace_path: String,
}

/// What a mock repository holds: its path-to-content table and its
/// workspace root.
pub struct MockRepoView {
    pub table: Seq<(Seq<char>, Seq<char>)>,
    pub root: Seq<char>,
}

impl View for MockRepo {
    type V = MockRepoView;

    closed spec fn view(&self) -> MockRepoView {
        MockRepoView {
            table: self.fake@.map_values(|p: (String, String)| (p.0@, p.1@)),
            root: self.workspace_path@,
        }
    }
}

impl MockRepo {
    pub fn new(path_by_content: Vec<(String, String)>, workspace_path: String) -> (r: MockRepo)
        ensures
            r@.table == path_by_content@.map_values(|p: (String, String)| (p.0@, p.1@)),
            r@.root == workspace_path@,
    {
        MockRepo { fake: path_by_content, workspace_path }
    }
}

impl Repository for MockRepo {
    fn get_content(&self, path: &str) -> (r: Option<String>)
        ensures
            match r {
                Some(c) => exists|k: int|
                    0 <= k < self@.table.len() && (#[trigger] self@.table[k]).0 == path@
                        && self@.table[k].1 == c@,
                None => forall|k: int|
                    0 <= k < self@.table.len() ==> (#[trigger] self@.table[k]).0 != path@,
            },
    {
        let mut k: usize = 0;
        while k < self.fake.len()
            invariant
                k <= self@.table.len(),
                self@.table.len() == self.fake@.len(),
                forall|j: int| 0 <= j < k ==> (#[trigger] self@.table[j]).0 != path@,
            decreases self.fake@.len() - k,
        {
            if str_eq(self.fake[k].0.as_str(), path) {
                proof {
                    assert((self@.table[k as int]).0 == path@ && (self@.table[k as int]).1
                        == self.fake@[k as int].1@);
                }
                return Some(self.fake[k].1.clone());
            }
            k += 1;
        }
        None
    }

    fn workspace_root(&self) -> (r: &str)
        ensures
            r@ == self@.root,
    {
        self.workspace_path.as_str()
    }
}

} // verus!

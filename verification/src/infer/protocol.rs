//! The inference protocol: the contract a build-system-specific plugin
//! implements, the result types it produces, and the shared resolution
//! of declared dependency paths.

use vstd::prelude::*;

use crate::types::{BuildSystemPath, RawTarget, Repository, ResolveError, Target, spec_resolve};

verus! {

/// Why one declared dependency was set aside instead of resolved.
#[derive(Debug, Clone, Copy, PartialEq, Eq, Structural)]
pub enum ParentFailure {
    /// The manifest declared an absolute path.
    AbsolutePath,
    /// Joining and normalizing the declared path failed.
    Resolve(ResolveError),
}

/// A dependency reference that could not be resolved to a package: the
/// declared path and the reason. Diagnostic only; it carries no graph
/// identity.
#[derive(Debug)]
pub struct FailedParent {
    pub name: String,
    pub reason: ParentFailure,
}

/// One inferred target together with its declared parent dependencies
/// and the references that failed to resolve.
#[derive(Debug)]
pub struct Single {
    pub target: Target,
    pub parents: Vec<RawTarget>,
    pub failed_parents: Vec<FailedParent>,
}

/// What one plugin produced for a package directory: nothing, one
/// target, or several flavors claimed by a single manifest.
#[derive(Debug)]
pub enum InferredTarget {
    One(Single),
    Many(Vec<Single>),
    Nothing,
}

/// Whether the runner should keep trying further plugins.
#[derive(Clone, Copy, Debug, PartialEq, Eq, Structural)]
pub enum Next {
    Continue,
    Break,
}

/// A plugin's whole answer: the produced target(s) and the
/// continuation signal.
#[derive(Debug)]
pub struct InferResult {
    pub inferred_target: InferredTarget,
    pub what_next: Next,
}

/// A fatal inference failure.
#[derive(Debug, PartialEq, Eq)]
pub enum InferError {
    /// More than one plugin claimed the named package; silent
    /// resolution would be unsound, so this aborts the whole run.
    Ambiguous(String),
    /// No plugin recognized the named package; there is no implicit
    /// default build system.
    NoMatch(String),
    /// A manifest was present but its text failed to parse; holds the
    /// parser's message.
    ManifestParse(String),
    /// A dependency entry had a shape the manifest schema disallows.
    ManifestShape,
    /// The graph traversal budget ran out; only a pathologically deep
    /// or cyclic dependency declaration chain can cause this.
    BudgetExhausted,
}

/// An inference plugin: inspects a package directory (through the
/// repository it was built with) and yields its typed targets plus
/// declared parent dependencies, or `Nothing` when the directory does
/// not belong to this plugin's build system. Nothing is promised of a
/// plugin's answer beyond an error discipline: a plugin may fail only
/// on its own manifest; the ambiguity, absence and budget verdicts
/// belong to the runner alone.
pub trait Infer {
    fn from_raw_target(&self, t: &RawTarget) -> (r: Result<InferResult, InferError>)
        ensures
            r matches Err(e) ==> e matches InferError::ManifestParse(_) || e
                == InferError::ManifestShape,
    ;
}

/// The raw declared path of each manifest-relative path.
pub open spec fn decl_views(v: Seq<BuildSystemPath>) -> Seq<Seq<char>> {
    v.map_values(|p: BuildSystemPath| p.raw@)
}

/// The canonical names of a sequence of raw targets.
pub open spec fn raw_names(v: Seq<RawTarget>) -> Seq<Seq<char>> {
    v.map_values(|t: RawTarget| t.name@)
}

/// The declared path and reason of each failed parent.
pub open spec fn failed_views(v: Seq<FailedParent>) -> Seq<(Seq<char>, ParentFailure)> {
    v.map_values(|f: FailedParent| (f.name@, f.reason))
}

/// Whether a declared path is absolute, in the posix sense.
pub open spec fn decl_is_abs(rel: Seq<char>) -> bool {
    rel.len() > 0 && rel[0] == '/'
}

/// The model of resolving a list of declared paths against the
/// declaring package at `base`: each absolute path fails outright,
/// each other path is joined, normalized and validated, and lands
/// among the successes or the failures accordingly.
pub open spec fn resolved_parents(base: Seq<char>, decls: Seq<Seq<char>>) -> (
    Seq<Seq<char>>,
    Seq<(Seq<char>, ParentFailure)>,
)
    decreases decls.len(),
{
    if decls.len() == 0 {
        (Seq::empty(), Seq::empty())
    } else {
        let (s, f) = resolved_parents(base, decls.drop_last());
        let d = decls.last();
        if decl_is_abs(d) {
            (s, f.push((d, ParentFailure::AbsolutePath)))
        } else {
            match spec_resolve(base, d) {
                Ok(p) => (s.push(p), f),
                Err(e) => (s, f.push((d, ParentFailure::Resolve(e)))),
            }
        }
    }
}

/// Resolves each declared dependency path against the declaring
/// package: absolute paths and failed resolutions become `FailedParent`
/// diagnostics, never hard errors; the rest become raw targets.
pub fn resolve_parent_paths<R: Repository>(
    repo: &R,
    rel_to: &RawTarget,
    decls: &Vec<BuildSystemPath>,
) -> (r: (Vec<RawTarget>, Vec<FailedParent>))
    ensures
        ({
            let m = resolved_parents(rel_to.name@, decl_views(decls@));
            raw_names(r.0@) == m.0 && failed_views(r.1@) == m.1
        }),
{
    let ghost dv = decl_views(decls@);
    let mut success: Vec<RawTarget> = Vec::new();
    let mut failed: Vec<FailedParent> = Vec::new();
    let mut k: usize = 0;
    proof {
        assert(dv.take(0) =~= Seq::<Seq<char>>::empty());
        assert(raw_names(success@) =~= resolved_parents(rel_to.name@, dv.take(0)).0);
        assert(failed_views(failed@) =~= resolved_parents(rel_to.name@, dv.take(0)).1);
    }
    while k < decls.len()
        invariant
            k <= decls@.len(),
            dv == decl_views(decls@),
            raw_names(success@) == resolved_parents(rel_to.name@, dv.take(k as int)).0,
            failed_views(failed@) == resolved_parents(rel_to.name@, dv.take(k as int)).1,
        decreases decls@.len() - k,
    {
        let d = &decls[k];
        proof {
            assert(dv.take(k + 1).drop_last() =~= dv.take(k as int));
            assert(dv.take(k + 1).last() == d.raw@);
        }
        if d.is_absolute() {
            failed.push(FailedParent { name: d.raw.clone(), reason: ParentFailure::AbsolutePath });
            proof {
                assert(failed_views(failed@) =~= resolved_parents(rel_to.name@, dv.take(k + 1)).1);
            }
        } else {
            match repo.resolve_rel_path(d, rel_to) {
                Ok(rt) => {
                    success.push(rt);
                    proof {
                        assert(raw_names(success@) =~= resolved_parents(
                            rel_to.name@,
                            dv.take(k + 1),
                        ).0);
                    }
                },
                Err(e) => {
                    failed.push(
                        FailedParent { name: d.raw.clone(), reason: ParentFailure::Resolve(e) },
                    );
                    proof {
                        assert(failed_views(failed@) =~= resolved_parents(
                            rel_to.name@,
                            dv.take(k + 1),
                        ).1);
                    }
                },
            }
        }
        k += 1;
    }
    proof {
        assert(dv.take(decls@.len() as int) =~= dv);
    }
    (success, failed)
}

} // verus!

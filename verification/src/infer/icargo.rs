//! Inference for packages described by a Cargo manifest. The manifest
//! is parsed by the `toml` crate behind trusted wrappers whose results
//! carry names: the parse outcome and the table accessors are each a
//! function of their arguments alone (the table is ordered, not
//! hashed), so the extraction of `path` dependencies is specified
//! exactly over those names, and the walk, the extraction and the
//! resolution against the declaring package are verified code.

use vstd::prelude::*;

use crate::infer::protocol::{
    decl_views, failed_views, raw_names, resolve_parent_paths, resolved_parents, Infer, InferError,
    InferResult, InferredTarget, Next, Single,
};
use crate::types::{BuildSystemPath, PathFormat, RawTarget, Repository, Target};

verus! {

#[verifier::external_type_specification]
#[verifier::external_body]
pub struct ExTomlValue(toml::Value);

#[verifier::external_type_specification]
#[verifier::external_body]
#[verifier::reject_recursive_types(K)]
#[verifier::reject_recursive_types(V)]
pub struct ExTomlMap<K, V>(toml::map::Map<K, V>);

/// What parsing the text `s` yields: the table for valid TOML, nothing
/// otherwise. A name, since the parse is a function of the text alone.
pub uninterp spec fn parsed_manifest(s: Seq<char>) -> Option<toml::Table>;

/// The value a table stores under a key, if any: the content of the
/// map under one key.
pub uninterp spec fn table_entry(t: toml::Table, key: Seq<char>) -> Option<toml::Value>;

/// The values a table stores, in the map's own (ordered, not hashed)
/// iteration order: the map's contents.
pub uninterp spec fn table_value_list(t: toml::Table) -> Seq<toml::Value>;

/// The table payload of a value, when the value is a table.
pub uninterp spec fn value_table(v: toml::Value) -> Option<toml::Table>;

/// The string payload of a value, when the value is a string.
pub uninterp spec fn value_str(v: toml::Value) -> Option<Seq<char>>;

/// Relies on toml::from_str: parses TOML text into its table of
/// values, or reports why the text is not valid TOML. The clauses only
/// name the outcome; nothing more is claimed of it.
#[verifier::external_body]
fn parse_manifest(s: &str) -> (r: Result<toml::Table, String>)
    ensures
        match r {
            Ok(t) => parsed_manifest(s@) == Some(t),
            Err(_) => parsed_manifest(s@) is None,
        },
{
    match toml::from_str::<toml::Table>(s) {
        Ok(t) => Ok(t),
        Err(e) => Err(e.to_string()),
    }
}

/// Relies on toml::map::Map::get: the value stored under the key, if
/// any; the clauses name that value.
#[verifier::external_body]
fn table_get<'a>(t: &'a toml::Table, key: &str) -> (r: Option<&'a toml::Value>)
    ensures
        match r {
            Some(v) => table_entry(*t, key@) == Some(*v),
            None => table_entry(*t, key@) is None,
        },
{
    t.get(key)
}

/// Relies on toml::Value::as_table: the table payload when the value
/// is a table; the clauses name that payload.
#[verifier::external_body]
fn value_as_table<'a>(v: &'a toml::Value) -> (r: Option<&'a toml::Table>)
    ensures
        match r {
            Some(t) => value_table(*v) == Some(*t),
            None => value_table(*v) is None,
        },
{
    v.as_table()
}

/// Relies on toml::Value::as_str: the string payload when the value is
/// a string; the clauses name that payload.
#[verifier::external_body]
fn value_as_str<'a>(v: &'a toml::Value) -> (r: Option<&'a str>)
    ensures
        match r {
            Some(s) => value_str(*v) == Some(s@),
            None => value_str(*v) is None,
        },
{
    v.as_str()
}

/// Relies on toml::map::Map::values: the stored values, in the map's
/// order; the clauses name that list.
#[verifier::external_body]
fn table_values<'a>(t: &'a toml::Table) -> (r: Vec<&'a toml::Value>)
    ensures
        r@.map_values(|v: &toml::Value| *v) == table_value_list(*t),
{
    t.values().collect()
}

/// The `path` key of a dependency entry.
pub open spec fn path_key() -> Seq<char> {
    seq!['p', 'a', 't', 'h']
}

/// The `[dependencies]` section key.
pub open spec fn deps_key() -> Seq<char> {
    seq!['d', 'e', 'p', 'e', 'n', 'd', 'e', 'n', 'c', 'i', 'e', 's']
}

/// The `[dev-dependencies]` section key.
pub open spec fn dev_deps_key() -> Seq<char> {
    seq!['d', 'e', 'v', '-', 'd', 'e', 'p', 'e', 'n', 'd', 'e', 'n', 'c', 'i', 'e', 's']
}

/// The path one dependency entry declares: a table's string `path`
/// value if there is one, nothing for a pathless table or a plain
/// version string, and a shape error for anything else, as the
/// manifest schema would reject it.
pub open spec fn entry_decl(v: toml::Value) -> Result<Option<Seq<char>>, ()> {
    match value_table(v) {
        Some(dt) => match table_entry(dt, path_key()) {
            None => Ok(None),
            Some(pv) => match value_str(pv) {
                Some(s) => Ok(Some(s)),
                None => Err(()),
            },
        },
        None => match value_str(v) {
            Some(_) => Ok(None),
            None => Err(()),
        },
    }
}

/// The declared paths of a list of dependency entries, in order, or a
/// shape error if any entry has one.
pub open spec fn entries_decls(vs: Seq<toml::Value>) -> Result<Seq<Seq<char>>, ()>
    decreases vs.len(),
{
    if vs.len() == 0 {
        Ok(Seq::empty())
    } else {
        match entries_decls(vs.drop_last()) {
            Err(()) => Err(()),
            Ok(ds) => match entry_decl(vs.last()) {
                Err(()) => Err(()),
                Ok(None) => Ok(ds),
                Ok(Some(s)) => Ok(ds.push(s)),
            },
        }
    }
}

/// The declared paths of one dependency section value, which must be a
/// table.
pub open spec fn section_decls(section: toml::Value) -> Result<Seq<Seq<char>>, ()> {
    match value_table(section) {
        None => Err(()),
        Some(t) => entries_decls(table_value_list(t)),
    }
}

/// The declared paths of the section stored under `key`, empty when
/// the section is absent.
pub open spec fn keyed_section_decls(m: toml::Table, key: Seq<char>) -> Result<Seq<Seq<char>>, ()> {
    match table_entry(m, key) {
        None => Ok(Seq::empty()),
        Some(section) => section_decls(section),
    }
}

/// Every `path` declaration of the manifest: its `[dependencies]`
/// section followed by its `[dev-dependencies]` section.
pub open spec fn manifest_decls(m: toml::Table) -> Result<Seq<Seq<char>>, ()> {
    match keyed_section_decls(m, deps_key()) {
        Err(()) => Err(()),
        Ok(a) => match keyed_section_decls(m, dev_deps_key()) {
            Err(()) => Err(()),
            Ok(b) => Ok(a + b),
        },
    }
}

/// Once one entry of a prefix has a shape error, the whole list has.
proof fn lemma_entries_decls_err(vs: Seq<toml::Value>, k: int)
    requires
        0 <= k <= vs.len(),
        entries_decls(vs.take(k)) is Err,
    ensures
        entries_decls(vs) is Err,
    decreases vs.len() - k,
{
    if k < vs.len() {
        assert(vs.take(k + 1).drop_last() =~= vs.take(k));
        lemma_entries_decls_err(vs, k + 1);
    } else {
        assert(vs.take(k) =~= vs);
    }
}

/// Pulls the `path` declarations out of one dependency section and
/// appends them: exactly the section's declared paths, in order, or
/// the shape error the section model gives.
fn section_dep_paths(section: &toml::Value, out: &mut Vec<BuildSystemPath>) -> (r: Result<
    (),
    InferError,
>)
    ensures
        match r {
            Ok(()) => section_decls(*section) matches Ok(ds) && final(out)@.len() == old(
                out,
            )@.len() + ds.len() && (forall|x: int|
                0 <= x < old(out)@.len() ==> final(out)@[x] == old(out)@[x]) && (forall|x: int|
                old(out)@.len() <= x < final(out)@.len() ==> (#[trigger] final(out)@[x]).raw@
                    == ds[x - old(out)@.len()] && final(out)@[x].format is Posix),
            Err(e) => e == InferError::ManifestShape && section_decls(*section) is Err,
        },
{
    let deps = match value_as_table(section) {
        Some(deps) => deps,
        None => {
            return Err(InferError::ManifestShape);
        },
    };
    let values = table_values(deps);
    let ghost vs = table_value_list(*deps);
    let ghost base = out@.len() as int;
    let mut k: usize = 0;
    proof {
        reveal_strlit("path");
        assert("path"@ =~= path_key());
        assert(vs.take(0) =~= Seq::<toml::Value>::empty());
        assert(decl_views(out@).skip(base) =~= Seq::<Seq<char>>::empty());
    }
    while k < values.len()
        invariant
            k <= values@.len(),
            values@.map_values(|v: &toml::Value| *v) == vs,
            section_decls(*section) == entries_decls(vs),
            "path"@ == path_key(),
            base == old(out)@.len(),
            base <= out@.len(),
            forall|x: int| 0 <= x < base ==> out@[x] == old(out)@[x],
            forall|x: int|
                base <= x < out@.len() ==> (#[trigger] out@[x]).format is Posix,
            entries_decls(vs.take(k as int)) == Ok::<Seq<Seq<char>>, ()>(
                decl_views(out@).skip(base),
            ),
        decreases values@.len() - k,
    {
        let v = values[k];
        proof {
            assert(vs.take(k + 1).drop_last() =~= vs.take(k as int));
            assert(vs[k as int] == *values@[k as int]);
            assert(vs.take(k + 1).last() == vs[k as int]);
        }
        match value_as_table(v) {
            Some(dep_table) => {
                match table_get(dep_table, "path") {
                    None => {
                        proof {
                            assert(entry_decl(vs[k as int]) == Ok::<Option<Seq<char>>, ()>(None));
                        }
                    },
                    Some(path_value) => {
                        match value_as_str(path_value) {
                            Some(path) => {
                                let ghost pre = out@;
                                out.push(
                                    BuildSystemPath::new(path.to_owned(), PathFormat::Posix),
                                );
                                proof {
                                    assert(entry_decl(vs[k as int]) == Ok::<
                                        Option<Seq<char>>,
                                        (),
                                    >(Some(path@)));
                                    assert forall|i: int|
                                        0 <= i < decl_views(out@).skip(base).len() implies
                                        decl_views(out@).skip(base)[i] == decl_views(pre).skip(
                                        base,
                                    ).push(path@)[i] by {
                                        if base + i < pre.len() {
                                            assert(out@[base + i] == pre[base + i]);
                                        } else {
                                            assert(out@[base + i].raw@ == path@);
                                        }
                                    }
                                    assert(decl_views(out@).skip(base) =~= decl_views(pre).skip(
                                        base,
                                    ).push(path@));
                                }
                            },
                            None => {
                                proof {
                                    assert(entry_decl(vs[k as int]) is Err);
                                    assert(entries_decls(vs.take(k + 1)) is Err);
                                    lemma_entries_decls_err(vs, k + 1);
                                }
                                return Err(InferError::ManifestShape);
                            },
                        }
                    },
                }
            },
            None => {
                // a plain version string declares no local path; any
                // other shape the manifest schema rejects
                match value_as_str(v) {
                    Some(_) => {
                        proof {
                            assert(entry_decl(vs[k as int]) == Ok::<Option<Seq<char>>, ()>(None));
                        }
                    },
                    None => {
                        proof {
                            assert(entry_decl(vs[k as int]) is Err);
                            assert(entries_decls(vs.take(k + 1)) is Err);
                            lemma_entries_decls_err(vs, k + 1);
                        }
                        return Err(InferError::ManifestShape);
                    },
                }
            },
        }
        k += 1;
    }
    proof {
        assert(vs.take(values@.len() as int) =~= vs);
    }
    Ok(())
}

/// The `path` declarations of the manifest's `[dependencies]` and
/// `[dev-dependencies]` sections, in that order: exactly what
/// `manifest_decls` gives, shape errors included.
fn manifest_dep_paths(manifest: &toml::Table) -> (r: Result<Vec<BuildSystemPath>, InferError>)
    ensures
        match r {
            Ok(decls) => manifest_decls(*manifest) == Ok::<Seq<Seq<char>>, ()>(decl_views(decls@))
                && (forall|x: int|
                0 <= x < decls@.len() ==> (#[trigger] decls@[x]).format is Posix),
            Err(e) => e == InferError::ManifestShape && manifest_decls(*manifest) is Err,
        },
{
    proof {
        reveal_strlit("dependencies");
        reveal_strlit("dev-dependencies");
        assert("dependencies"@ =~= deps_key());
        assert("dev-dependencies"@ =~= dev_deps_key());
    }
    let mut decls: Vec<BuildSystemPath> = Vec::new();
    match table_get(manifest, "dependencies") {
        None => {
            proof {
                assert(decl_views(decls@) =~= Seq::<Seq<char>>::empty());
                assert(keyed_section_decls(*manifest, deps_key()) == Ok::<Seq<Seq<char>>, ()>(
                    decl_views(decls@),
                ));
            }
        },
        Some(section) => {
            section_dep_paths(section, &mut decls)?;
            proof {
                let ds = section_decls(*section)->Ok_0;
                assert forall|x: int| 0 <= x < decls@.len() implies decl_views(decls@)[x]
                    == ds[x] by {
                }
                assert(decl_views(decls@) =~= ds);
                assert(keyed_section_decls(*manifest, deps_key()) == Ok::<Seq<Seq<char>>, ()>(
                    decl_views(decls@),
                ));
            }
        },
    }
    let ghost n1 = decls@.len() as int;
    let ghost d1 = decl_views(decls@);
    match table_get(manifest, "dev-dependencies") {
        None => {
            proof {
                assert(decl_views(decls@) =~= d1 + Seq::<Seq<char>>::empty());
            }
        },
        Some(section) => {
            let ghost pre = decls@;
            section_dep_paths(section, &mut decls)?;
            proof {
                let ds = section_decls(*section)->Ok_0;
                assert forall|x: int| 0 <= x < decls@.len() implies decl_views(decls@)[x] == (d1
                    + ds)[x] by {
                    if x < n1 {
                        assert(decls@[x] == pre[x]);
                    }
                }
                assert(decl_views(decls@) =~= d1 + ds);
            }
        },
    }
    Ok(decls)
}

/// The flavor tag this plugin stamps on its targets.
pub open spec fn cargo_flavor() -> Seq<char> {
    "cargo"@
}

/// Builds the inferred target for a package whose Cargo manifest
/// parsed to `manifest`: the declared path dependencies are extracted
/// and resolved against the declaring package. Succeeds exactly when
/// the manifest's dependency entries are well-shaped.
pub fn infer_from_manifest<R: Repository>(
    repo: &R,
    t: &RawTarget,
    manifest: &toml::Table,
) -> (r: Result<Single, InferError>)
    ensures
        r matches Ok(s) ==> s.target@.name == t.name@ && s.target@.flavor == cargo_flavor() && (
        manifest_decls(*manifest) matches Ok(ds) && raw_names(s.parents@) == resolved_parents(
            t.name@,
            ds,
        ).0 && failed_views(s.failed_parents@) == resolved_parents(t.name@, ds).1),
        r matches Err(e) ==> e == InferError::ManifestShape && manifest_decls(*manifest) is Err,
        manifest_decls(*manifest) is Ok ==> r is Ok,
{
    let decls = manifest_dep_paths(manifest)?;
    let (parents, failed_parents) = resolve_parent_paths(repo, t, &decls);
    let target = match Target::from_raw_target(t, String::from_str("cargo")) {
        Ok(target) => target,
        Err(_) => unreached(),
    };
    Ok(Single { target, parents, failed_parents })
}

/// Builds the inferred target for a package whose Cargo manifest read
/// `content`: parse failure is fatal with the parser's message, a
/// malformed dependency entry is fatal as a shape error, and otherwise
/// the declared paths resolve against the declaring package — an
/// absolute or escaping declaration only lands among the failed
/// parents, never in an error.
pub fn infer_from_cargo_content<R: Repository>(repo: &R, t: &RawTarget, content: &str) -> (r:
    Result<Single, InferError>)
    ensures
        match parsed_manifest(content@) {
            None => r matches Err(e) && e matches InferError::ManifestParse(_),
            Some(m) => match manifest_decls(m) {
                Err(()) => r matches Err(e) && e == InferError::ManifestShape,
                Ok(ds) => r matches Ok(s) && s.target@.name == t.name@ && s.target@.flavor
                    == cargo_flavor() && raw_names(s.parents@) == resolved_parents(t.name@, ds).0
                    && failed_views(s.failed_parents@) == resolved_parents(t.name@, ds).1,
            },
        },
{
    let manifest = match parse_manifest(content) {
        Ok(manifest) => manifest,
        Err(message) => {
            return Err(InferError::ManifestParse(message));
        },
    };
    infer_from_manifest(repo, t, &manifest)
}

/// Infers the `cargo` flavor for directories that hold a Cargo
/// manifest.
pub struct CargoInfer<R: Repository> {
    repo: R,
}

impl<R: Repository> CargoInfer<R> {
    pub fn new(repo: R) -> Self {
        Self { repo }
    }

    /// Reads the package's Cargo manifest and produces its target:
    /// `Nothing` when no manifest is there, one `cargo`-flavored target
    /// built by `infer_from_cargo_content` when there is one, and that
    /// function's fatal errors otherwise. The runner may always try
    /// further plugins.
    pub fn infer_package(&self, t: &RawTarget) -> (r: Result<InferResult, InferError>)
        ensures
            r matches Ok(ir) ==> ir.what_next == Next::Continue && match ir.inferred_target {
                InferredTarget::Nothing => true,
                InferredTarget::One(s) => s.target@.name == t.name@ && s.target@.flavor
                    == cargo_flavor() && (exists|c: Seq<char>|
                    #![trigger parsed_manifest(c)]
                    parsed_manifest(c) matches Some(m) && manifest_decls(m) matches Ok(ds)
                        && raw_names(s.parents@) == resolved_parents(t.name@, ds).0 && failed_views(
                        s.failed_parents@,
                    ) == resolved_parents(t.name@, ds).1),
                InferredTarget::Many(_) => false,
            },
            r matches Err(e) ==> (e matches InferError::ManifestParse(_) || e
                == InferError::ManifestShape),
            r matches Err(e) ==> (exists|c: Seq<char>|
                #![trigger parsed_manifest(c)]
                match parsed_manifest(c) {
                    None => e matches InferError::ManifestParse(_),
                    Some(m) => e == InferError::ManifestShape && manifest_decls(m) is Err,
                }),
    {
        let mut path = self.repo.target_name_to_path(&t.name);
        path.append("/Cargo.toml");
        match self.repo.get_content(path.as_str()) {
            None => Ok(
                InferResult { inferred_target: InferredTarget::Nothing, what_next: Next::Continue },
            ),
            Some(content) => {
                let single = infer_from_cargo_content(&self.repo, t, content.as_str())?;
                proof {
                    let c = content@;
                    assert(parsed_manifest(c) is Some);
                }
                Ok(
                    InferResult {
                        inferred_target: InferredTarget::One(single),
                        what_next: Next::Continue,
                    },
                )
            },
        }
    }
}

impl<R: Repository> Infer for CargoInfer<R> {
    fn from_raw_target(&self, t: &RawTarget) -> Result<InferResult, InferError> {
        self.infer_package(t)
    }
}

} // verus!

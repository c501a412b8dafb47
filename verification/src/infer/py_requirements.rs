//! Inference for packages described by a line-oriented requirements
//! list. A line declares a local dependency either by starting with
//! `./` or `../`, or by an `@ file://` reference; everything else on
//! the list is ignored.

use vstd::prelude::*;

use crate::infer::protocol::{
    decl_views, failed_views, raw_names, resolved_parents, Infer, InferError, InferResult,
    InferredTarget, Next, Single,
};
use crate::strutil::{
    check_match_at, find_char, find_substr, first_index_of, first_substr_index, lemma_first_index_of,
    lemma_first_substr_index, matches_at, split_on, split_str, trim_blanks, trimmed, views_of,
};
use crate::types::{BuildSystemPath, PathFormat, RawTarget, Repository, Target};

verus! {

/// The `file://` reference marker.
pub open spec fn file_marker() -> Seq<char> {
    seq!['f', 'i', 'l', 'e', ':', '/', '/']
}

/// The `./` line prefix.
pub open spec fn dot_slash() -> Seq<char> {
    seq!['.', '/']
}

/// The `../` line prefix.
pub open spec fn dotdot_slash() -> Seq<char> {
    seq!['.', '.', '/']
}

/// The local paths one requirements line declares: the whole trimmed
/// line when it starts with `./` or `../`, and what follows the first
/// `file://` marker at or after the first `@`, when both are present.
pub open spec fn line_paths(line: Seq<char>) -> Seq<Seq<char>> {
    let t = trimmed(line);
    let dots = if matches_at(t, dot_slash(), 0) || matches_at(t, dotdot_slash(), 0) {
        seq![t]
    } else {
        Seq::<Seq<char>>::empty()
    };
    let refs = match first_index_of(t, '@') {
        None => Seq::<Seq<char>>::empty(),
        Some(a) => {
            let rest = t.skip(a);
            match first_substr_index(rest, file_marker()) {
                None => Seq::<Seq<char>>::empty(),
                Some(f) => seq![rest.skip(f + 7)],
            }
        },
    };
    dots + refs
}

/// The declared paths of a sequence of lines, in order.
pub open spec fn lines_paths(lines: Seq<Seq<char>>) -> Seq<Seq<char>>
    decreases lines.len(),
{
    if lines.len() == 0 {
        Seq::empty()
    } else {
        lines_paths(lines.drop_last()) + line_paths(lines.last())
    }
}

/// Every local dependency path a requirements list declares.
pub open spec fn requirement_paths(content: Seq<char>) -> Seq<Seq<char>> {
    lines_paths(split_on(content, '\n'))
}

/// The declared local dependency paths of one requirements line.
pub fn line_decls(line: &str) -> (r: Vec<String>)
    ensures
        views_of(r@) == line_paths(line@),
{
    proof {
        reveal_strlit("./");
        reveal_strlit("../");
        reveal_strlit("file://");
        assert("./"@ =~= dot_slash());
        assert("../"@ =~= dotdot_slash());
        assert("file://"@ =~= file_marker());
    }
    let mut out: Vec<String> = Vec::new();
    let ghost pre_out = views_of(out@);
    proof {
        assert(pre_out =~= Seq::<Seq<char>>::empty());
    }
    let t = trim_blanks(line);
    let ghost tv = t@;
    let tlen = t.unicode_len();
    let starts_dot = (tlen >= 2 && check_match_at(t.as_str(), "./", 0)) || (tlen >= 3
        && check_match_at(t.as_str(), "../", 0));
    let ghost dots: Seq<Seq<char>> = if starts_dot {
        seq![tv]
    } else {
        Seq::<Seq<char>>::empty()
    };
    proof {
        assert(starts_dot == (matches_at(tv, dot_slash(), 0) || matches_at(
            tv,
            dotdot_slash(),
            0,
        )));
    }
    let mut marker_ref: Option<String> = None;
    let ghost mut refs: Seq<Seq<char>> = Seq::empty();
    match find_char(t.as_str(), '@') {
        None => {},
        Some(a) => {
            proof {
                lemma_first_index_of(tv, '@');
            }
            let rest = t.as_str().substring_char(a, tlen);
            proof {
                assert(rest@ =~= tv.skip(a as int));
            }
            match find_substr(rest, "file://") {
                None => {},
                Some(f) => {
                    proof {
                        lemma_first_substr_index(rest@, file_marker());
                    }
                    let rlen = rest.unicode_len();
                    let piece = rest.substring_char(f + 7, rlen).to_owned();
                    proof {
                        assert(piece@ =~= rest@.skip(f + 7));
                        refs = seq![piece@];
                    }
                    marker_ref = Some(piece);
                },
            }
        },
    }
    proof {
        assert(line_paths(line@) == dots + refs) by {
            assert(trimmed(line@) == tv);
        }
    }
    if starts_dot {
        out.push(t);
        proof {
            assert(views_of(out@) =~~= pre_out + dots);
        }
    } else {
        proof {
            assert(views_of(out@) =~~= pre_out + dots);
        }
    }
    let ghost mid_out = views_of(out@);
    match marker_ref {
        None => {
            proof {
                assert(views_of(out@) =~~= mid_out + refs);
            }
        },
        Some(p) => {
            out.push(p);
            proof {
                assert(views_of(out@) =~~= mid_out + refs);
            }
        },
    }
    proof {
        assert(views_of(out@) =~~= pre_out + (dots + refs));
        assert(views_of(out@) =~~= line_paths(line@));
    }
    out
}

/// Scans a requirements list for declared local dependency paths.
pub fn get_file_names(content: &str) -> (r: Vec<String>)
    ensures
        views_of(r@) == requirement_paths(content@),
{
    let lines = split_str(content, '\n');
    let ghost lv = views_of(lines@);
    let mut out: Vec<String> = Vec::new();
    let mut k: usize = 0;
    proof {
        assert(lv.take(0) =~= Seq::<Seq<char>>::empty());
        assert(views_of(out@) =~= lines_paths(lv.take(0)));
    }
    while k < lines.len()
        invariant
            k <= lines@.len(),
            lv == views_of(lines@),
            lv == split_on(content@, '\n'),
            views_of(out@) == lines_paths(lv.take(k as int)),
        decreases lines@.len() - k,
    {
        proof {
            assert(lv.take(k + 1).drop_last() =~= lv.take(k as int));
            assert(lv.take(k + 1).last() == lines@[k as int]@);
        }
        let ghost pre_out = views_of(out@);
        let mut ps = line_decls(lines[k].as_str());
        let ghost pv = views_of(ps@);
        out.append(&mut ps);
        proof {
            assert(views_of(out@) =~~= pre_out + pv);
            assert(views_of(out@) =~~= lines_paths(lv.take(k + 1)));
        }
        k += 1;
    }
    proof {
        assert(lv.take(lines@.len() as int) =~= lv);
    }
    out
}

/// The flavor tag this plugin stamps on its targets.
pub open spec fn py_flavor() -> Seq<char> {
    "python_requirements"@
}

/// Builds the inferred target for a package whose requirements list
/// held `content`: the declared paths are scanned out and resolved
/// against the declaring package.
pub fn infer_from_requirements<R: Repository>(repo: &R, t: &RawTarget, content: &str) -> (r: Single)
    ensures
        r.target@.name == t.name@,
        r.target@.flavor == py_flavor(),
        raw_names(r.parents@) == resolved_parents(t.name@, requirement_paths(content@)).0,
        failed_views(r.failed_parents@) == resolved_parents(t.name@, requirement_paths(content@)).1,
{
    let names = get_file_names(content);
    let mut decls: Vec<BuildSystemPath> = Vec::new();
    let mut i: usize = 0;
    proof {
        assert(decl_views(decls@) =~= views_of(names@).take(0));
    }
    while i < names.len()
        invariant
            i <= names@.len(),
            decls@.len() == i,
            decl_views(decls@) == views_of(names@).take(i as int),
        decreases names@.len() - i,
    {
        let ghost pre = decls@;
        decls.push(BuildSystemPath::new(names[i].clone(), PathFormat::Posix));
        proof {
            assert forall|x: int| 0 <= x < i + 1 implies decl_views(decls@)[x] == views_of(
                names@,
            ).take(i + 1)[x] by {
                if x < i {
                    assert(decls@[x] == pre[x]);
                    assert(decl_views(pre)[x] == views_of(names@).take(i as int)[x]);
                } else {
                    assert(decls@[x].raw@ == names@[x]@);
                }
            }
            assert(decl_views(decls@) =~= views_of(names@).take(i + 1));
        }
        i += 1;
    }
    proof {
        assert(views_of(names@).take(names@.len() as int) =~= views_of(names@));
    }
    let (parents, failed_parents) = crate::infer::protocol::resolve_parent_paths(repo, t, &decls);
    let target = match Target::from_raw_target(t, String::from_str("python_requirements")) {
        Ok(target) => target,
        Err(_) => unreached(),
    };
    Single { target, parents, failed_parents }
}

/// Infers the `python_requirements` flavor for directories that hold a
/// requirements list under the configured file name.
pub struct PyRequirementsInfer<R: Repository> {
    repo: R,
    req_file_name: String,
}

impl<R: Repository> PyRequirementsInfer<R> {
    pub fn new(repo: R, req_file_name: String) -> Self {
        Self { repo, req_file_name }
    }

    /// Reads the requirements list and produces the package's target:
    /// `Nothing` when the list is absent, otherwise one target whose
    /// parents resolve from the declared paths; the runner may always
    /// try further plugins after this one.
    pub fn infer_package(&self, t: &RawTarget) -> (r: InferResult)
        ensures
            r.what_next == Next::Continue,
            match r.inferred_target {
                InferredTarget::Nothing => true,
                InferredTarget::One(s) => s.target@.name == t.name@ && s.target@.flavor
                    == py_flavor() && (exists|c: Seq<char>|
                    #![trigger requirement_paths(c)]
                    raw_names(s.parents@) == resolved_parents(t.name@, requirement_paths(c)).0
                        && failed_views(s.failed_parents@) == resolved_parents(
                        t.name@,
                        requirement_paths(c),
                    ).1),
                InferredTarget::Many(_) => false,
            },
    {
        let mut path = self.repo.target_name_to_path(&t.name);
        path.append("/");
        path.append(self.req_file_name.as_str());
        match self.repo.get_content(path.as_str()) {
            None => InferResult {
                inferred_target: InferredTarget::Nothing,
                what_next: Next::Continue,
            },
            Some(content) => {
                let single = infer_from_requirements(&self.repo, t, content.as_str());
                proof {
                    let c = content@;
                    assert(raw_names(single.parents@) == resolved_parents(
                        t.name@,
                        requirement_paths(c),
                    ).0);
                }
                InferResult {
                    inferred_target: InferredTarget::One(single),
                    what_next: Next::Continue,
                }
            },
        }
    }
}

impl<R: Repository> Infer for PyRequirementsInfer<R> {
    fn from_raw_target(&self, t: &RawTarget) -> Result<InferResult, InferError> {
        Ok(self.infer_package(t))
    }
}

} // verus!

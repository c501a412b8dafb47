//! Lexical path algorithms: separator conversion and normalization.
//!
//! Normalization collapses `.` and resolves `..` purely lexically, with
//! no filesystem access and no symlink resolution. It fails when a `..`
//! would pop above the path's own root, which is the safety boundary
//! that keeps a manifest from referencing anything outside the
//! workspace.

use vstd::prelude::*;

use crate::strutil::{join_slash, join_slash_str, split_str, split_on, views_of};

verus! {

/// A `..` component tried to pop above the path's root.
#[derive(Debug, Clone, Copy, PartialEq, Eq, Structural)]
pub enum NormalizeError {
    EscapesRoot,
}

/// `s` with every `/` replaced by `\`.
pub open spec fn win_separators(s: Seq<char>) -> Seq<char> {
    s.map_values(|c: char| if c == '/' { '\\' } else { c })
}

/// Converts a posix path to the Windows separator convention.
pub fn posix_to_win(p: &str) -> (r: String)
    ensures
        r@ == win_separators(p@),
{
    let len = p.unicode_len();
    let mut out = String::new();
    let mut i: usize = 0;
    proof {
        assert(out@ =~= win_separators(p@.take(0)));
    }
    while i < len
        invariant
            i <= len,
            len == p@.len(),
            out@ == win_separators(p@.take(i as int)),
        decreases len - i,
    {
        if p.get_char(i) == '/' {
            out.append("\\");
            proof {
                reveal_strlit("\\");
                assert(out@ =~= win_separators(p@.take(i + 1)));
            }
        } else {
            let piece = p.substring_char(i, i + 1);
            out.append(piece);
            proof {
                assert(out@ =~= win_separators(p@.take(i + 1)));
            }
        }
        i += 1;
    }
    proof {
        assert(p@.take(len as int) =~= p@);
    }
    out
}

/// The single-character component `.`.
pub open spec fn dot() -> Seq<char> {
    seq!['.']
}

/// The two-character component `..`.
pub open spec fn dotdot() -> Seq<char> {
    seq!['.', '.']
}

/// Whether `p` is exactly `.`.
pub fn is_dot(p: &str) -> (r: bool)
    ensures
        r == (p@ == dot()),
{
    let r = p.unicode_len() == 1 && p.get_char(0) == '.';
    proof {
        if r {
            assert(p@ =~= dot());
        }
    }
    r
}

/// Whether `p` is exactly `..`.
pub fn is_dotdot(p: &str) -> (r: bool)
    ensures
        r == (p@ == dotdot()),
{
    let r = p.unicode_len() == 2 && p.get_char(0) == '.' && p.get_char(1) == '.';
    proof {
        if r {
            assert(p@ =~= dotdot());
        }
    }
    r
}

/// The component stack left after walking `comps` left to right: empty
/// components and `.` are skipped, `..` pops, anything else is pushed.
/// `None` when a `..` finds nothing to pop.
pub open spec fn norm_stack(comps: Seq<Seq<char>>) -> Option<Seq<Seq<char>>>
    decreases comps.len(),
{
    if comps.len() == 0 {
        Some(Seq::empty())
    } else {
        match norm_stack(comps.drop_last()) {
            None => None,
            Some(st) => {
                let c = comps.last();
                if c.len() == 0 || c == dot() {
                    Some(st)
                } else if c == dotdot() {
                    if st.len() == 0 {
                        None
                    } else {
                        Some(st.drop_last())
                    }
                } else {
                    Some(st.push(c))
                }
            },
        }
    }
}

/// Once a prefix of the walk has failed, the whole walk fails.
proof fn lemma_norm_stack_none(cs: Seq<Seq<char>>, k: int)
    requires
        0 <= k <= cs.len(),
        norm_stack(cs.take(k)) is None,
    ensures
        norm_stack(cs) is None,
    decreases cs.len() - k,
{
    if k < cs.len() {
        assert(cs.take(k + 1).drop_last() =~= cs.take(k));
        lemma_norm_stack_none(cs, k + 1);
    } else {
        assert(cs.take(k) =~= cs);
    }
}

/// What normalization yields for the path string `s`, if it does not
/// escape its root.
pub open spec fn norm_path(s: Seq<char>) -> Option<Seq<char>> {
    let abs = s.len() > 0 && s[0] == '/';
    match norm_stack(split_on(s, '/')) {
        None => None,
        Some(st) => Some(
            if abs {
                seq!['/'] + join_slash(st)
            } else {
                join_slash(st)
            },
        ),
    }
}

/// Lexically collapses `.` and resolves `..` without touching the
/// filesystem; fails when a `..` would pop above the path's own root.
pub fn normalize_path(path: &str) -> (r: Result<String, NormalizeError>)
    ensures
        match r {
            Ok(p) => norm_path(path@) == Some(p@),
            Err(_) => norm_path(path@) is None,
        },
{
    let abs = path.unicode_len() > 0 && path.get_char(0) == '/';
    let parts = split_str(path, '/');
    let mut stack: Vec<String> = Vec::new();
    let mut k: usize = 0;
    proof {
        assert(views_of(parts@).take(0) =~= Seq::<Seq<char>>::empty());
        assert(norm_stack(views_of(parts@).take(0)) == Some(views_of(stack@)));
        assert(views_of(stack@) =~= Seq::<Seq<char>>::empty());
    }
    while k < parts.len()
        invariant
            k <= parts@.len(),
            views_of(parts@) == split_on(path@, '/'),
            norm_stack(views_of(parts@).take(k as int)) == Some(views_of(stack@)),
        decreases parts@.len() - k,
    {
        let ghost pre = views_of(stack@);
        let part = &parts[k];
        proof {
            assert(views_of(parts@).take(k + 1).drop_last() =~= views_of(parts@).take(k as int));
            assert(views_of(parts@).take(k + 1).last() == part@);
        }
        if part.as_str().is_empty() || is_dot(part.as_str()) {
            // skipped outright, like the current-directory component
        } else if is_dotdot(part.as_str()) {
            if stack.len() == 0 {
                proof {
                    assert(norm_stack(views_of(parts@).take(k + 1)) is None);
                    lemma_norm_stack_none(views_of(parts@), k + 1);
                }
                return Err(NormalizeError::EscapesRoot);
            }
            stack.pop();
            proof {
                assert(views_of(stack@) =~= pre.drop_last());
            }
        } else {
            stack.push(part.clone());
            proof {
                assert(views_of(stack@) =~= pre.push(part@));
            }
        }
        k += 1;
    }
    proof {
        assert(views_of(parts@).take(parts@.len() as int) =~= views_of(parts@));
    }
    let joined = join_slash_str(&stack);
    if abs {
        let mut out = String::new();
        out.append("/");
        out.append(joined.as_str());
        proof {
            reveal_strlit("/");
            assert(out@ =~= seq!['/'] + join_slash(views_of(stack@)));
        }
        Ok(out)
    } else {
        Ok(joined)
    }
}

} // verus!

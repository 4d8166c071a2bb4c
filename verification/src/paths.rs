//! Absolute paths as component lists.  The tree works on vectors of name
//! components; this module turns slash-separated strings into such vectors,
//! rejecting relative paths and the `.` and `..` components.

use crate::etc_tree::{is_normal_component, path_view, wf_components};
use vstd::prelude::*;

verus! {

/// Errors of the path tree's boundary.
#[derive(Clone, Copy, PartialEq, Eq, Structural, Debug)]
pub enum TreeError {
    /// The path holds a component that is not a plain name: it is relative,
    /// or uses `.` or `..`.
    UnsupportedPathComponent,
}

/// Index of the first `/` of `s`, or `s.len()` if there is none.
pub open spec fn first_slash(s: Seq<char>) -> int
    decreases s.len(),
{
    if s.len() == 0 {
        0
    } else if s[0] == '/' {
        0
    } else {
        1 + first_slash(s.skip(1))
    }
}

pub proof fn lemma_first_slash_bounds(s: Seq<char>)
    ensures
        0 <= first_slash(s) <= s.len(),
        first_slash(s) < s.len() ==> s[first_slash(s)] == '/',
        forall|m: int| 0 <= m < first_slash(s) ==> s[m] != '/',
    decreases s.len(),
{
    if s.len() == 0 {
    } else if s[0] == '/' {
    } else {
        let s1 = s.skip(1);
        assert(s1 == s.subrange(1, s.len() as int));
        lemma_first_slash_bounds(s1);
        let n = first_slash(s);
        assert(n == 1 + first_slash(s1));
        if n < s.len() {
            assert(s1[n - 1] == s[n as int]);
        }
        assert forall|m: int| 0 <= m < n implies s[m] != '/' by {
            if m > 0 {
                assert(s1[m - 1] == s[m]);
            }
        }
    }
}

/// The segments of `s`: maximal runs of characters between `/` separators,
/// empty runs dropped.
pub open spec fn split_path(s: Seq<char>) -> Seq<Seq<char>>
    decreases s.len() via split_path_decreases
{
    if s.len() == 0 {
        Seq::empty()
    } else {
        let n = first_slash(s);
        let seg = s.take(n);
        let rest = if n >= s.len() {
            Seq::<char>::empty()
        } else {
            s.skip(n + 1)
        };
        if seg.len() == 0 {
            split_path(rest)
        } else {
            seq![seg] + split_path(rest)
        }
    }
}

#[via_fn]
proof fn split_path_decreases(s: Seq<char>) {
    if s.len() > 0 {
        lemma_first_slash_bounds(s);
    }
}

proof fn lemma_first_slash(s: Seq<char>, n: int)
    requires
        0 <= n <= s.len(),
        forall|m: int| 0 <= m < n ==> s[m] != '/',
        n == s.len() || s[n] == '/',
    ensures
        first_slash(s) == n,
    decreases n,
{
    if s.len() == 0 {
    } else if s[0] == '/' {
        assert(n == 0);
    } else {
        assert(n >= 1);
        let s1 = s.skip(1);
        assert(s1 == s.subrange(1, s.len() as int));
        assert forall|m: int| 0 <= m < n - 1 implies s1[m] != '/' by {
            assert(s.subrange(1, s.len() as int)[m] == s[m + 1]);
        }
        if n < s.len() {
            assert(s1[n - 1] == s[n as int]);
        }
        lemma_first_slash(s1, n - 1);
    }
}

/// One step of splitting: a segment running from `pos` to the separator (or
/// the end) at `j` stands first in the split of the suffix at `pos`.
proof fn lemma_split_step(s: Seq<char>, pos: int, j: int)
    requires
        0 <= pos <= j <= s.len(),
        pos < s.len(),
        forall|m: int| pos <= m < j ==> s[m] != '/',
        j == s.len() || s[j] == '/',
    ensures
        split_path(s.skip(pos)) == (if j == pos {
            Seq::<Seq<char>>::empty()
        } else {
            seq![s.subrange(pos, j)]
        }) + split_path(
            if j + 1 >= s.len() {
                Seq::<char>::empty()
            } else {
                s.skip(j + 1)
            },
        ),
{
    let t = s.skip(pos);
    assert(t == s.subrange(pos, s.len() as int));
    assert(t.len() == s.len() - pos);
    assert(t.len() > 0);
    assert forall|m: int| 0 <= m < j - pos implies t[m] != '/' by {
        assert(s.subrange(pos, s.len() as int)[m] == s[m + pos]);
    }
    if j < s.len() {
        assert(t[j - pos] == s[j as int]);
    }
    lemma_first_slash(t, j - pos);
    let n = j - pos;
    assert(t.take(n) =~= s.subrange(pos, j));
    let rest = if n >= t.len() {
        Seq::<char>::empty()
    } else {
        t.skip(n + 1)
    };
    let rest2 = if j + 1 >= s.len() {
        Seq::<char>::empty()
    } else {
        s.skip(j + 1)
    };
    assert(rest =~= rest2) by {
        if n < t.len() && j + 1 < s.len() {
            assert(t.skip(n + 1) =~= s.skip(j + 1));
        } else if n < t.len() {
            assert(t.skip(n + 1) =~= Seq::<char>::empty());
        }
    }
    if j == pos {
        assert(split_path(t) == split_path(rest));
        assert(split_path(t) =~= Seq::<Seq<char>>::empty() + split_path(rest2));
    } else {
        assert(split_path(t) == seq![t.take(n)] + split_path(rest));
    }
}

/// Parse an absolute path into its name components.  Fails exactly when the
/// string does not begin with `/` or one of its segments is `.` or `..`.
#[verifier::loop_isolation(false)]
pub fn parse_abs_path(s: &str) -> (r: Result<Vec<String>, TreeError>)
    ensures
        r is Ok <==> s@.len() > 0 && s@[0] == '/' && wf_components(split_path(s@)),
        r matches Ok(cs) ==> path_view(cs@) == split_path(s@),
        r is Err ==> r == Err::<Vec<String>, TreeError>(TreeError::UnsupportedPathComponent),
{
    let n = s.unicode_len();
    if n == 0 || s.get_char(0) != '/' {
        return Err(TreeError::UnsupportedPathComponent);
    }
    let mut out: Vec<String> = Vec::new();
    let mut pos: usize = 0;
    proof {
        assert(s@.skip(0) =~= s@);
    }
    while pos < n
        invariant
            0 <= pos <= n,
            split_path(s@) == path_view(out@) + split_path(s@.skip(pos as int)),
            wf_components(path_view(out@)),
        decreases n - pos,
    {
        let mut j: usize = pos;
        while j < n && s.get_char(j) != '/'
            invariant
                pos <= j <= n,
                forall|m: int| pos <= m < j ==> s@[m] != '/',
            decreases n - j,
        {
            j += 1;
        }
        proof {
            lemma_split_step(s@, pos as int, j as int);
        }
        let ghost old_out = out@;
        let ghost old_pos = pos as int;
        let ghost seg = s@.subrange(pos as int, j as int);
        let ghost rest2 = if j as int + 1 >= s@.len() {
            Seq::<char>::empty()
        } else {
            s@.skip(j as int + 1)
        };
        if j == pos {
            pos = j + 1;
            proof {
                assert(split_path(s@.skip(old_pos)) == Seq::<Seq<char>>::empty() + split_path(
                    rest2,
                ));
                assert(Seq::<Seq<char>>::empty() + split_path(rest2) =~= split_path(rest2));
                if pos as int >= s@.len() {
                    assert(s@.skip(pos as int) =~= Seq::<char>::empty());
                    assert(rest2 =~= s@.skip(pos as int));
                } else {
                    assert(rest2 == s@.skip(pos as int));
                }
            }
        } else {
            let len = j - pos;
            let dot = s.get_char(pos) == '.';
            if (len == 1 && dot) || (len == 2 && dot && s.get_char(pos + 1) == '.') {
                proof {
                    assert(seg.len() == len);
                    assert(seg[0] == s@[pos as int]);
                    if len == 2 {
                        assert(seg[1] == s@[pos as int + 1]);
                    }
                    assert(!is_normal_component(seg)) by {
                        if len == 1 {
                            assert(seg =~= seq!['.']);
                        } else {
                            assert(seg =~= seq!['.', '.']);
                        }
                    }
                    let full = split_path(s@);
                    assert(full == path_view(old_out) + (seq![seg] + split_path(rest2)));
                    assert(full[old_out.len() as int] == seg);
                    assert(!wf_components(full));
                }
                return Err(TreeError::UnsupportedPathComponent);
            }
            let seg_str = s.substring_char(pos, j);
            out.push(seg_str.to_owned());
            proof {
                assert(out@ == old_out.push(out@[out@.len() - 1]));
                assert(out@[out@.len() - 1]@ == seg);
                assert(path_view(out@) =~= path_view(old_out) + seq![seg]) by {
                    assert forall|w: int| 0 <= w < out@.len() implies path_view(out@)[w] == (
                    path_view(old_out) + seq![seg])[w] by {
                        if w < out@.len() - 1 {
                            assert(out@[w] == old_out[w]);
                        }
                    }
                }
                assert(is_normal_component(seg)) by {
                    assert(seg.len() > 0);
                    assert(forall|m: int| 0 <= m < seg.len() ==> seg[m] == s@[pos + m]);
                    assert(!seg.contains('/')) by {
                        if seg.contains('/') {
                            let m = choose|m: int| 0 <= m < seg.len() && seg[m] == '/';
                            assert(s@[pos + m] == '/');
                        }
                    }
                    if seg =~= seq!['.'] {
                        assert(len == 1 && s@[pos as int] == '.');
                    }
                    if seg =~= seq!['.', '.'] {
                        assert(len == 2 && s@[pos as int] == '.' && s@[pos as int + 1] == '.');
                    }
                }
                assert(wf_components(path_view(out@))) by {
                    assert forall|w: int|
                        0 <= w < path_view(out@).len() implies is_normal_component(
                        #[trigger] path_view(out@)[w],
                    ) by {
                        if w < out@.len() - 1 {
                            assert(path_view(out@)[w] == path_view(old_out)[w]);
                        } else {
                            assert(path_view(out@)[w] == seg);
                        }
                    }
                }
            }
            if j == n {
                pos = n;
            } else {
                pos = j + 1;
            }
            proof {
                assert(split_path(s@.skip(old_pos)) == seq![seg] + split_path(rest2));
                assert(split_path(s@) == path_view(old_out) + (seq![seg] + split_path(rest2)));
                assert(path_view(old_out) + (seq![seg] + split_path(rest2)) =~= (path_view(old_out)
                    + seq![seg]) + split_path(rest2));
                if pos as int >= s@.len() {
                    assert(s@.skip(pos as int) =~= Seq::<char>::empty());
                    assert(rest2 =~= s@.skip(pos as int));
                } else {
                    assert(rest2 == s@.skip(pos as int));
                }
            }
        }
    }
    proof {
        assert(s@.skip(pos as int) =~= Seq::<char>::empty());
        assert(split_path(Seq::<char>::empty()) =~= Seq::<Seq<char>>::empty());
        assert(path_view(out@) =~= split_path(s@));
    }
    Ok(out)
}

} // verus!

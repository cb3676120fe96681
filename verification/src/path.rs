//! Canonical absolute paths and the normalizer that produces them.
//!
//! A canonical path is `/` or `/seg/.../seg` where every segment is nonempty
//! and none is `.` or `..`. A possibly-relative input is resolved against an
//! explicit base directory, left to right: `..` pops a segment (failing at the
//! root), `.` and empty components are skipped, and plain segments are
//! appended.
use vstd::prelude::*;

verus! {

/// A path string is absolute when it begins with the separator.
pub open spec fn abs_path(s: Seq<char>) -> bool {
    s.len() >= 1 && s[0] == '/'
}

/// Index of the first separator in `s`, or `s.len()` when there is none.
pub open spec fn first_sep(s: Seq<char>) -> int
    decreases s.len(),
{
    if s.len() == 0 {
        0
    } else if s[0] == '/' {
        0
    } else {
        1 + first_sep(s.drop_first())
    }
}

pub proof fn lemma_first_sep_bounds(s: Seq<char>)
    ensures
        0 <= first_sep(s) <= s.len(),
        forall|i: int| 0 <= i < first_sep(s) ==> s[i] != '/',
        first_sep(s) < s.len() ==> s[first_sep(s)] == '/',
    decreases s.len(),
{
    if s.len() > 0 && s[0] != '/' {
        lemma_first_sep_bounds(s.drop_first());
        assert(forall|i: int| 1 <= i < first_sep(s) ==> s[i] == s.drop_first()[i - 1]);
    }
}

/// The characterization pins `first_sep` down from a scan's findings.
pub proof fn lemma_first_sep_is(s: Seq<char>, k: int)
    requires
        0 <= k <= s.len(),
        forall|i: int| 0 <= i < k ==> s[i] != '/',
        k < s.len() ==> s[k] == '/',
    ensures
        first_sep(s) == k,
    decreases s.len(),
{
    if s.len() > 0 && s[0] != '/' {
        lemma_first_sep_is(s.drop_first(), k - 1);
    }
}

/// Index of the last separator in `s`, or `-1` when there is none.
pub open spec fn last_sep(s: Seq<char>) -> int
    decreases s.len(),
{
    if s.len() == 0 {
        -1
    } else if s[s.len() - 1] == '/' {
        s.len() - 1
    } else {
        last_sep(s.drop_last())
    }
}

pub proof fn lemma_last_sep_bounds(s: Seq<char>)
    ensures
        -1 <= last_sep(s) < s.len(),
        last_sep(s) >= 0 ==> s[last_sep(s)] == '/',
        forall|i: int| last_sep(s) < i < s.len() ==> s[i] != '/',
    decreases s.len(),
{
    if s.len() > 0 && s[s.len() - 1] != '/' {
        lemma_last_sep_bounds(s.drop_last());
        assert(forall|i: int| last_sep(s) < i < s.len() - 1 ==> s.drop_last()[i] == s[i]);
    }
}

pub proof fn lemma_last_sep_is(s: Seq<char>, k: int)
    requires
        -1 <= k < s.len(),
        k >= 0 ==> s[k] == '/',
        forall|i: int| k < i < s.len() ==> s[i] != '/',
    ensures
        last_sep(s) == k,
    decreases s.len(),
{
    if s.len() > 0 && s[s.len() - 1] != '/' {
        lemma_last_sep_is(s.drop_last(), k);
    }
}

/// How `last_sep` moves over a concatenation.
pub proof fn lemma_last_sep_concat(a: Seq<char>, b: Seq<char>)
    ensures
        last_sep(a + b) == if last_sep(b) >= 0 {
            a.len() + last_sep(b)
        } else {
            last_sep(a)
        },
{
    lemma_last_sep_bounds(a);
    lemma_last_sep_bounds(b);
    let ab = a + b;
    if last_sep(b) >= 0 {
        lemma_last_sep_is(ab, a.len() + last_sep(b));
    } else {
        lemma_last_sep_is(ab, last_sep(a));
    }
}

/// The directory above `s`: everything before the last separator, or the
/// root when the last separator is the leading one (or `s` has none).
pub open spec fn parent_dir(s: Seq<char>) -> Seq<char> {
    if last_sep(s) <= 0 {
        seq!['/']
    } else {
        s.subrange(0, last_sep(s))
    }
}

pub proof fn lemma_parent_dir_shorter(s: Seq<char>)
    requires
        s.len() >= 2,
    ensures
        parent_dir(s).len() < s.len(),
        abs_path(s) ==> abs_path(parent_dir(s)),
{
    lemma_last_sep_bounds(s);
}

/// Appending one segment under a directory.
pub open spec fn join(dir: Seq<char>, seg: Seq<char>) -> Seq<char> {
    if dir.len() == 1 && dir[0] == '/' {
        dir + seg
    } else {
        dir + seq!['/'] + seg
    }
}

/// A well-formed path segment: nonempty, no separator, not `.` or `..`.
pub open spec fn valid_seg(seg: Seq<char>) -> bool {
    &&& seg.len() > 0
    &&& !seg.contains('/')
    &&& seg != seq!['.']
    &&& seg != seq!['.', '.']
}

/// Segment text after a path's leading separator: every `/`-separated piece
/// is a well-formed segment. Recursion peels the last segment off.
pub open spec fn valid_segs(t: Seq<char>) -> bool
    decreases t.len(),
{
    let j = last_sep(t);
    if j < 0 {
        valid_seg(t)
    } else if j >= t.len() {
        false
    } else {
        valid_seg(t.subrange(j + 1, t.len() as int)) && valid_segs(t.subrange(0, j))
    }
}

/// A canonical path: absolute, and each segment well-formed.
pub open spec fn canonical(s: Seq<char>) -> bool {
    abs_path(s) && (s.len() == 1 || valid_segs(s.subrange(1, s.len() as int)))
}

/// Joining a well-formed segment under a canonical directory stays canonical.
pub proof fn lemma_join_canonical(dir: Seq<char>, seg: Seq<char>)
    requires
        canonical(dir),
        valid_seg(seg),
    ensures
        canonical(join(dir, seg)),
        abs_path(join(dir, seg)),
        join(dir, seg).len() > 1,
{
    lemma_last_sep_bounds(seg);
    assert(last_sep(seg) == -1) by {
        if last_sep(seg) >= 0 {
            assert(seg.contains('/')) by {
                assert(seg[last_sep(seg)] == '/');
            }
        }
    }
    if dir.len() == 1 {
        let p = dir + seg;
        assert(p.subrange(1, p.len() as int) =~= seg);
        lemma_last_sep_is(seg, -1);
    } else {
        let p = dir + seq!['/'] + seg;
        let t = p.subrange(1, p.len() as int);
        let t0 = dir.subrange(1, dir.len() as int);
        assert(t =~= t0 + seq!['/'] + seg);
        lemma_last_sep_concat(t0 + seq!['/'], seg);
        lemma_last_sep_concat(t0, seq!['/']);
        assert(last_sep(seq!['/']) == 0);
        assert(last_sep(t) == t0.len());
        assert(t.subrange(t0.len() as int + 1, t.len() as int) =~= seg);
        assert(t.subrange(0, t0.len() as int) =~= t0);
    }
}

/// The parent of a canonical non-root path is canonical.
pub proof fn lemma_parent_canonical(s: Seq<char>)
    requires
        canonical(s),
        s.len() > 1,
    ensures
        canonical(parent_dir(s)),
        parent_dir(s).len() < s.len(),
{
    let t = s.subrange(1, s.len() as int);
    let j = last_sep(t);
    lemma_last_sep_bounds(t);
    lemma_last_sep_concat(seq!['/'], t);
    assert(s =~= seq!['/'] + t);
    if j < 0 {
        assert(last_sep(s) == 0);
    } else {
        assert(last_sep(s) == 1 + j);
        if j == 0 {
            // the leading piece would be an empty segment, which valid_segs
            // rules out
            assert(valid_segs(t.subrange(0, 0)));
            assert(!valid_seg(t.subrange(0, 0))) by {
                assert(t.subrange(0, 0).len() == 0);
            }
            lemma_last_sep_bounds(t.subrange(0, 0));
            assert(false);
        } else {
            let p = s.subrange(0, 1 + j);
            assert(p.subrange(1, p.len() as int) =~= t.subrange(0, j));
        }
    }
}

/// Resolution of a relative path against an accumulator directory, one
/// component at a time: `..` pops (failing at the root), `.` and empty
/// components are skipped, plain segments are appended.
pub open spec fn spec_norm_rel(cur: Seq<char>, p: Seq<char>) -> Option<Seq<char>>
    decreases p.len(),
    via spec_norm_rel_decreases
{
    if p.len() == 0 {
        Some(cur)
    } else {
        let i = first_sep(p);
        if i == 0 {
            spec_norm_rel(cur, p.drop_first())
        } else {
            let seg = p.subrange(0, i);
            let rest = if i < p.len() {
                p.subrange(i + 1, p.len() as int)
            } else {
                Seq::<char>::empty()
            };
            if seg == seq!['.'] {
                spec_norm_rel(cur, rest)
            } else if seg == seq!['.', '.'] {
                if cur.len() == 1 {
                    None
                } else {
                    spec_norm_rel(parent_dir(cur), rest)
                }
            } else {
                spec_norm_rel(join(cur, seg), rest)
            }
        }
    }
}

#[via_fn]
proof fn spec_norm_rel_decreases(cur: Seq<char>, p: Seq<char>) {
    lemma_first_sep_bounds(p);
}

/// What normalization returns: an absolute input is taken as already
/// canonical; a relative one is resolved against the base directory.
pub open spec fn spec_normalize(base: Seq<char>, p: Seq<char>) -> Option<Seq<char>> {
    if abs_path(p) {
        Some(p)
    } else {
        spec_norm_rel(base, p)
    }
}

/// Resolution from a canonical directory only ever yields canonical paths.
pub proof fn lemma_norm_rel_canonical(cur: Seq<char>, p: Seq<char>)
    requires
        canonical(cur),
    ensures
        spec_norm_rel(cur, p) matches Some(q) ==> canonical(q),
    decreases p.len(),
{
    lemma_first_sep_bounds(p);
    if p.len() == 0 {
    } else {
        let i = first_sep(p);
        if i == 0 {
            lemma_norm_rel_canonical(cur, p.drop_first());
        } else {
            let seg = p.subrange(0, i);
            let rest = if i < p.len() {
                p.subrange(i + 1, p.len() as int)
            } else {
                Seq::<char>::empty()
            };
            if seg == seq!['.'] {
                lemma_norm_rel_canonical(cur, rest);
            } else if seg == seq!['.', '.'] {
                if cur.len() != 1 {
                    lemma_parent_canonical(cur);
                    lemma_norm_rel_canonical(parent_dir(cur), rest);
                }
            } else {
                assert(valid_seg(seg)) by {
                    if seg.contains('/') {
                        let k = choose|k: int| 0 <= k < seg.len() && seg[k] == '/';
                        assert(p[k] == '/');
                    }
                }
                lemma_join_canonical(cur, seg);
                lemma_norm_rel_canonical(join(cur, seg), rest);
            }
        }
    }
}

/// Law: a path that normalizes does so to an absolute path, and normalizing
/// again returns that result unchanged.
pub proof fn lemma_normalize_idempotent(base: Seq<char>, p: Seq<char>)
    requires
        canonical(base),
    ensures
        spec_normalize(base, p) matches Some(q) ==> abs_path(q),
        spec_normalize(base, p) matches Some(q) ==> spec_normalize(base, q) == Some(q),
{
    if !abs_path(p) {
        lemma_norm_rel_canonical(base, p);
    }
}

/// Number of segments of a path: the steps to reach the root.
pub open spec fn depth(s: Seq<char>) -> nat
    decreases s.len(),
    via depth_decreases
{
    if s.len() <= 1 {
        0
    } else {
        1 + depth(parent_dir(s))
    }
}

#[via_fn]
proof fn depth_decreases(s: Seq<char>) {
    if s.len() >= 2 {
        lemma_parent_dir_shorter(s);
    }
}

/// A relative path of `k` parent components: `..`, `../..`, and so on.
pub open spec fn pops(k: nat) -> Seq<char>
    decreases k,
{
    if k == 0 {
        Seq::<char>::empty()
    } else if k == 1 {
        seq!['.', '.']
    } else {
        seq!['.', '.', '/'] + pops((k - 1) as nat)
    }
}

proof fn lemma_norm_rel_over_pop(cur: Seq<char>, k: nat)
    requires
        canonical(cur),
        k > depth(cur),
    ensures
        spec_norm_rel(cur, pops(k)) is None,
    decreases k,
{
    let p = pops(k);
    if k == 1 {
        lemma_first_sep_is(p, 2);
        assert(p.subrange(0, 2) =~= seq!['.', '.']);
        assert(depth(cur) == 0);
        assert(cur.len() == 1);
    } else {
        lemma_first_sep_is(p, 2);
        assert(p.subrange(0, 2) =~= seq!['.', '.']);
        assert(p.subrange(3, p.len() as int) =~= pops((k - 1) as nat));
        if cur.len() == 1 {
        } else {
            lemma_parent_canonical(cur);
            assert(depth(cur) == 1 + depth(parent_dir(cur)));
            lemma_norm_rel_over_pop(parent_dir(cur), (k - 1) as nat);
        }
    }
}

/// Law: a relative path with more parent pops than the base directory has
/// segments fails to normalize.
pub proof fn lemma_normalize_over_pop(base: Seq<char>, k: nat)
    requires
        canonical(base),
        k > depth(base),
    ensures
        spec_normalize(base, pops(k)) is None,
{
    assert(pops(k)[0] == '.') by {
        if k >= 2 {
        }
    }
    lemma_norm_rel_over_pop(base, k);
}

/// Scan for the next separator at or after `from`.
fn find_sep(s: &str, from: usize) -> (r: usize)
    requires
        from <= s@.len(),
    ensures
        from <= r <= s@.len(),
        forall|i: int| from <= i < r ==> s@[i] != '/',
        r < s@.len() ==> s@[r as int] == '/',
{
    let n = s.unicode_len();
    let mut i = from;
    while i < n && s.get_char(i) != '/'
        invariant
            from <= i <= n,
            n == s@.len(),
            forall|j: int| from <= j < i ==> s@[j] != '/',
        decreases n - i,
    {
        i = i + 1;
    }
    i
}

/// The parent directory of `cur`, as `parent_dir` describes it.
pub fn parent_of(cur: &String) -> (r: String)
    ensures
        r@ == parent_dir(cur@),
{
    let n = cur.as_str().unicode_len();
    let mut j = n;
    while j > 0 && cur.as_str().get_char(j - 1) != '/'
        invariant
            j <= n,
            n == cur@.len(),
            forall|i: int| j <= i < n ==> cur@[i] != '/',
        decreases j,
    {
        j = j - 1;
    }
    proof {
        lemma_last_sep_is(cur@, j - 1);
    }
    if j <= 1 {
        let r = String::from_str("/");
        proof {
            reveal_strlit("/");
            assert(r@ =~= seq!['/']);
        }
        r
    } else {
        cur.as_str().substring_char(0, j - 1).to_owned()
    }
}

/// `seg` appended under the directory `cur`.
pub fn join_under(cur: String, seg: &str) -> (r: String)
    ensures
        r@ == join(cur@, seg@),
{
    let root = cur.as_str().unicode_len() == 1 && cur.as_str().get_char(0) == '/';
    let mut out = cur;
    if !root {
        out.append("/");
        proof {
            reveal_strlit("/");
            assert("/"@ =~= seq!['/']);
        }
    }
    out.append(seg);
    out
}

/// Produce the canonical absolute form of `path`: an absolute input is
/// returned unchanged; a relative one is resolved against `base`, popping a
/// segment for each parent component and failing once the root has no parent
/// left to pop.
pub fn normalize(base: &str, path: &str) -> (r: Option<String>)
    ensures
        match r {
            Some(q) => spec_normalize(base@, path@) == Some(q@),
            None => spec_normalize(base@, path@) is None,
        },
{
    let n = path.unicode_len();
    if n >= 1 && path.get_char(0) == '/' {
        return Some(path.to_owned());
    }
    let mut cur: String = base.to_owned();
    let mut pos: usize = 0;
    proof {
        assert(path@.subrange(0, n as int) =~= path@);
    }
    while pos < n
        invariant
            n == path@.len(),
            pos <= n,
            !abs_path(path@),
            spec_norm_rel(cur@, path@.subrange(pos as int, n as int)) == spec_norm_rel(
                base@,
                path@,
            ),
        decreases n - pos,
    {
        let i = find_sep(path, pos);
        let ghost rem = path@.subrange(pos as int, n as int);
        proof {
            lemma_first_sep_is(rem, i - pos);
        }
        if i == pos {
            proof {
                assert(rem.drop_first() =~= path@.subrange(pos + 1, n as int));
            }
            pos = i + 1;
        } else {
            let ghost cur0 = cur@;
            let ghost seg = rem.subrange(0, i - pos);
            let ghost rest = if i < n {
                path@.subrange(i + 1, n as int)
            } else {
                Seq::<char>::empty()
            };
            proof {
                if (i as int) < n as int {
                    assert(rem.subrange(i - pos + 1, rem.len() as int) =~= rest);
                }
            }
            let seglen = i - pos;
            if seglen == 1 && path.get_char(pos) == '.' {
                proof {
                    assert(seg =~= seq!['.']);
                    assert(spec_norm_rel(cur0, rem) == spec_norm_rel(cur0, rest));
                }
            } else if seglen == 2 && path.get_char(pos) == '.' && path.get_char(pos + 1)
                == '.' {
                proof {
                    assert(seg =~= seq!['.', '.']);
                }
                if cur.as_str().unicode_len() == 1 {
                    return None;
                }
                cur = parent_of(&cur);
                proof {
                    assert(spec_norm_rel(cur0, rem) == spec_norm_rel(parent_dir(cur0), rest));
                }
            } else {
                proof {
                    assert(seg != seq!['.'] && seg != seq!['.', '.']) by {
                        if seglen == 1 {
                            assert(seg[0] == path@[pos as int]);
                        } else if seglen == 2 {
                            assert(seg[0] == path@[pos as int]);
                            assert(seg[1] == path@[pos as int + 1]);
                        }
                    }
                }
                let piece = path.substring_char(pos, i);
                proof {
                    assert(piece@ =~= seg);
                }
                cur = join_under(cur, piece);
                proof {
                    assert(spec_norm_rel(cur0, rem) == spec_norm_rel(join(cur0, seg), rest));
                }
            }
            pos = if i < n {
                i + 1
            } else {
                n
            };
            proof {
                if i == n {
                    assert(path@.subrange(n as int, n as int) =~= Seq::<char>::empty());
                }
            }
        }
    }
    proof {
        assert(path@.subrange(pos as int, n as int).len() == 0);
    }
    Some(cur)
}

/// Resolution from an absolute directory yields absolute paths.
pub proof fn lemma_norm_rel_abs(cur: Seq<char>, p: Seq<char>)
    requires
        abs_path(cur),
    ensures
        spec_norm_rel(cur, p) matches Some(q) ==> abs_path(q),
    decreases p.len(),
{
    lemma_first_sep_bounds(p);
    if p.len() == 0 {
    } else {
        let i = first_sep(p);
        if i == 0 {
            lemma_norm_rel_abs(cur, p.drop_first());
        } else {
            let seg = p.subrange(0, i);
            let rest = if i < p.len() {
                p.subrange(i + 1, p.len() as int)
            } else {
                Seq::<char>::empty()
            };
            if seg == seq!['.'] {
                lemma_norm_rel_abs(cur, rest);
            } else if seg == seq!['.', '.'] {
                if cur.len() != 1 {
                    lemma_last_sep_bounds(cur);
                    lemma_norm_rel_abs(parent_dir(cur), rest);
                }
            } else {
                lemma_norm_rel_abs(join(cur, seg), rest);
            }
        }
    }
}

/// Joining a separator-free name under an absolute directory puts the name
/// after the last separator.
pub proof fn lemma_join_name(dir: Seq<char>, name: Seq<char>)
    requires
        abs_path(dir),
        !name.contains('/'),
    ensures
        abs_path(join(dir, name)),
        join(dir, name).subrange(
            last_sep(join(dir, name)) + 1,
            join(dir, name).len() as int,
        ) == name,
{
    assert(last_sep(name) == -1) by {
        assert(forall|i: int| 0 <= i < name.len() ==> name[i] != '/');
        lemma_last_sep_is(name, -1);
    }
    if dir.len() == 1 && dir[0] == '/' {
        let p = dir + name;
        lemma_last_sep_concat(dir, name);
        assert(last_sep(dir) == 0) by {
            lemma_last_sep_is(dir, 0);
        }
        assert(p.subrange(1, p.len() as int) =~= name);
    } else {
        let p = dir + seq!['/'] + name;
        lemma_last_sep_concat(dir + seq!['/'], name);
        lemma_last_sep_concat(dir, seq!['/']);
        assert(last_sep(seq!['/']) == 0);
        assert(last_sep(p) == dir.len());
        assert(p.subrange(dir.len() as int + 1, p.len() as int) =~= name);
    }
}

/// The final component: everything after the last separator.
pub fn base_name(path: &str) -> (r: String)
    ensures
        r@ == path@.subrange(last_sep(path@) + 1, path@.len() as int),
{
    let n = path.unicode_len();
    let mut j = n;
    while j > 0 && path.get_char(j - 1) != '/'
        invariant
            j <= n,
            n == path@.len(),
            forall|i: int| j <= i < n ==> path@[i] != '/',
        decreases j,
    {
        j = j - 1;
    }
    proof {
        lemma_last_sep_is(path@, j - 1);
    }
    path.substring_char(j, n).to_owned()
}

/// The directory with a trailing separator, ready to take a child name.
pub open spec fn dir_slash(d: Seq<char>) -> Seq<char> {
    if d.len() > 0 && d.last() == '/' {
        d
    } else {
        d + seq!['/']
    }
}

/// The executable form of `dir_slash`.
pub fn dir_slash_exec(d: &str) -> (r: String)
    ensures
        r@ == dir_slash(d@),
{
    let n = d.unicode_len();
    if n > 0 && d.get_char(n - 1) == '/' {
        d.to_owned()
    } else {
        let mut s = d.to_owned();
        s.append("/");
        proof {
            reveal_strlit("/");
            assert("/"@ =~= seq!['/']);
        }
        s
    }
}

/// Index of the last dot in `s`, or `-1` when there is none.
pub open spec fn last_dot(s: Seq<char>) -> int
    decreases s.len(),
{
    if s.len() == 0 {
        -1
    } else if s[s.len() - 1] == '.' {
        s.len() - 1
    } else {
        last_dot(s.drop_last())
    }
}

pub proof fn lemma_last_dot_is(s: Seq<char>, k: int)
    requires
        -1 <= k < s.len(),
        k >= 0 ==> s[k] == '.',
        forall|i: int| k < i < s.len() ==> s[i] != '.',
    ensures
        last_dot(s) == k,
    decreases s.len(),
{
    if s.len() > 0 && s[s.len() - 1] != '.' {
        lemma_last_dot_is(s.drop_last(), k);
    }
}

/// The extension of a task name: what follows the last dot of the final
/// component, when that dot is neither leading nor part of a bare `..`.
pub open spec fn spec_extension(name: Seq<char>) -> Option<Seq<char>> {
    let comp = name.subrange(last_sep(name) + 1, name.len() as int);
    let j = last_dot(comp);
    if j > 0 && comp != seq!['.', '.'] {
        Some(comp.subrange(j + 1, comp.len() as int))
    } else {
        None
    }
}

/// Read the extension out of a task name, if it carries one.
pub fn extract_extension(name: &str) -> (r: Option<String>)
    ensures
        match r {
            Some(e) => spec_extension(name@) == Some(e@),
            None => spec_extension(name@) is None,
        },
{
    let n = name.unicode_len();
    let mut j = n;
    while j > 0 && name.get_char(j - 1) != '/'
        invariant
            j <= n,
            n == name@.len(),
            forall|i: int| j <= i < n ==> name@[i] != '/',
        decreases j,
    {
        j = j - 1;
    }
    proof {
        lemma_last_sep_is(name@, j - 1);
    }
    let ghost comp = name@.subrange(j as int, n as int);
    if n - j == 2 && name.get_char(j) == '.' && name.get_char(j + 1) == '.' {
        proof {
            assert(comp =~= seq!['.', '.']);
        }
        return None;
    }
    let mut k = n;
    while k > j && name.get_char(k - 1) != '.'
        invariant
            j <= k <= n,
            n == name@.len(),
            forall|i: int| k <= i < n ==> name@[i] != '.',
        decreases k,
    {
        k = k - 1;
    }
    proof {
        if k > j {
            lemma_last_dot_is(comp, k - 1 - j);
        } else {
            lemma_last_dot_is(comp, -1);
        }
        if comp == seq!['.', '.'] {
            assert(n - j == 2 && comp[0] == '.' && comp[1] == '.');
        }
    }
    if k > j && k - 1 > j {
        let e = name.substring_char(k, n).to_owned();
        proof {
            assert(comp.subrange(k - j as int, comp.len() as int) =~= name@.subrange(
                k as int,
                n as int,
            ));
        }
        Some(e)
    } else {
        None
    }
}

} // verus!

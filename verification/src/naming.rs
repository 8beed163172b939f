//! The naming rules: camelCasing, extension stripping, relative-path
//! resolution, package discovery and the chunk name of an import specifier.

use vstd::prelude::*;
use crate::text::{
    chars_of, join_with, last_index_of, nonempty_bounds, nonempty_pieces, push_joined, push_range,
    range_eq, seqs_of, split_bounds, split_on, string_push, subvec,
};

verus! {

/// `-` and `_` separate words in package names.
pub open spec fn is_word_separator(c: char) -> bool {
    c == '-' || c == '_'
}

/// ASCII uppercase of `c`; every other character is unchanged.
pub open spec fn ascii_upper(c: char) -> char {
    if 'a' <= c && c <= 'z' {
        ((c as int) - 32) as char
    } else {
        c
    }
}

/// camelCase of a kebab-case / snake_case name: separators are dropped and
/// the character right after a separator is uppercased.
pub open spec fn camel_case(s: Seq<char>) -> Seq<char>
    decreases s.len(),
{
    if s.len() == 0 {
        Seq::<char>::empty()
    } else {
        let p = s.drop_last();
        let c = s.last();
        if is_word_separator(c) {
            camel_case(p)
        } else if p.len() > 0 && is_word_separator(p.last()) {
            camel_case(p).push(ascii_upper(c))
        } else {
            camel_case(p).push(c)
        }
    }
}

fn upper_ascii_char(c: char) -> (u: char)
    ensures
        u == ascii_upper(c),
{
    if 'a' <= c && c <= 'z' {
        let b = c as u8;
        (b - 32) as char
    } else {
        c
    }
}

/// Appends the camelCase form of `s[lo..hi]` to `out`.
pub fn write_camel_case_range(v: &Vec<char>, lo: usize, hi: usize, out: &mut String)
    requires
        lo <= hi <= v.len(),
    ensures
        final(out)@ == old(out)@ + camel_case(v@.subrange(lo as int, hi as int)),
{
    let ghost start = out@;
    let mut cap_next = false;
    let mut i = lo;
    while i < hi
        invariant
            lo <= i <= hi <= v.len(),
            out@ == start + camel_case(v@.subrange(lo as int, i as int)),
            cap_next == (i > lo && is_word_separator(v@[i - 1])),
        decreases hi - i,
    {
        let c = v[i];
        let ghost p = v@.subrange(lo as int, i as int);
        assert(v@.subrange(lo as int, i + 1).drop_last() =~= p);
        if c == '-' || c == '_' {
            cap_next = true;
        } else if cap_next {
            string_push(out, upper_ascii_char(c));
            cap_next = false;
        } else {
            string_push(out, c);
        }
        i = i + 1;
        assert(out@ =~= start + camel_case(v@.subrange(lo as int, i as int)));
    }
}

/// Appends the camelCase form of `s` to `out`.
pub fn write_camel_case(s: &str, out: &mut String)
    ensures
        final(out)@ == old(out)@ + camel_case(s@),
{
    let v = chars_of(s);
    write_camel_case_range(&v, 0, v.len(), out);
    assert(v@.subrange(0, v.len() as int) =~= s@);
}

/// The camelCase form of a kebab-case / snake_case name.
pub fn to_camel_case(s: &str) -> (r: String)
    ensures
        r@ == camel_case(s@),
{
    let mut out = String::new();
    write_camel_case(s, &mut out);
    assert(out@ =~= camel_case(s@));
    out
}

/// `s` without its extension: everything before the last `.`, unless there
/// is no `.` or the only candidate is at position 0 (hidden files).
pub open spec fn strip_ext(s: Seq<char>) -> Seq<char> {
    match last_index_of(s, '.') {
        Some(i) => if i > 0 {
            s.take(i)
        } else {
            s
        },
        None => s,
    }
}

/// End of the stem of `v[lo..hi]`: the position of its last `.` when that
/// is not its first character, else `hi`.
fn stem_end(v: &Vec<char>, lo: usize, hi: usize) -> (e: usize)
    requires
        lo <= hi <= v.len(),
    ensures
        lo <= e <= hi,
        v@.subrange(lo as int, e as int) == strip_ext(v@.subrange(lo as int, hi as int)),
{
    let ghost s = v@.subrange(lo as int, hi as int);
    let mut j = hi;
    assert(s.take(hi - lo) =~= s);
    while j > lo
        invariant
            lo <= j <= hi <= v.len(),
            s == v@.subrange(lo as int, hi as int),
            last_index_of(s, '.') == last_index_of(s.take(j - lo), '.'),
        decreases j - lo,
    {
        let ghost t = s.take(j - lo);
        assert(t.drop_last() =~= s.take(j - 1 - lo));
        if v[j - 1] == '.' {
            assert(t.last() == '.');
            if j - 1 > lo {
                assert(v@.subrange(lo as int, (j - 1) as int) =~= s.take(j - 1 - lo));
                return j - 1;
            } else {
                assert(v@.subrange(lo as int, hi as int) =~= s);
                return hi;
            }
        }
        j = j - 1;
    }
    assert(s.take(0) =~= Seq::<char>::empty());
    assert(v@.subrange(lo as int, hi as int) =~= s);
    hi
}

/// `filename` without its extension (see [`strip_ext`]).
pub fn strip_extension(filename: &str) -> (r: &str)
    ensures
        r@ == strip_ext(filename@),
{
    let v = chars_of(filename);
    let e = stem_end(&v, 0, v.len());
    assert(v@.subrange(0, v.len() as int) =~= v@);
    filename.substring_char(0, e)
}

/// The source directories used when no custom list is configured:
/// `src`, `lib`, `dist`.
pub open spec fn default_source_dirs() -> Seq<Seq<char>> {
    seq![seq!['s', 'r', 'c'], seq!['l', 'i', 'b'], seq!['d', 'i', 's', 't']]
}

/// The configured source directories as character sequences.
pub open spec fn dirs_view(dirs: Option<&[String]>) -> Option<Seq<Seq<char>>> {
    match dirs {
        Some(d) => Some(d@.map_values(|s: String| s@)),
        None => None,
    }
}

/// The directory names that mark a package boundary: the custom list when
/// one is given, the defaults otherwise.
pub open spec fn active_dirs(dirs: Option<Seq<Seq<char>>>) -> Seq<Seq<char>> {
    match dirs {
        Some(d) => d,
        None => default_source_dirs(),
    }
}

pub open spec fn is_source_dir_spec(dirs: Option<Seq<Seq<char>>>, seg: Seq<char>) -> bool {
    active_dirs(dirs).contains(seg)
}

/// The source-directory names in force, one vector of characters each.
pub fn source_dir_list(dirs: Option<&[String]>) -> (l: Vec<Vec<char>>)
    ensures
        seqs_of(l@) == active_dirs(dirs_view(dirs)),
{
    match dirs {
        Some(d) => {
            let mut l: Vec<Vec<char>> = Vec::new();
            let mut i: usize = 0;
            while i < d.len()
                invariant
                    i <= d.len(),
                    seqs_of(l@) == d@.take(i as int).map_values(|s: String| s@),
                decreases d.len() - i,
            {
                let cs = chars_of(d[i].as_str());
                assert(cs@ == d@[i as int]@);
                let ghost before = seqs_of(l@);
                l.push(cs);
                assert(seqs_of(l@) =~= before.push(d@[i as int]@));
                assert(d@.take(i + 1) =~= d@.take(i as int).push(d@[i as int]));
                i = i + 1;
                assert(seqs_of(l@) =~= d@.take(i as int).map_values(|s: String| s@));
            }
            assert(d@.take(d.len() as int) =~= d@);
            l
        },
        None => {
            let l = vec![vec!['s', 'r', 'c'], vec!['l', 'i', 'b'], vec!['d', 'i', 's', 't']];
            assert(seqs_of(l@) =~= default_source_dirs());
            l
        },
    }
}

/// `true` when `v[lo..hi]` is one of the names in `list`.
pub fn in_dir_list(list: &Vec<Vec<char>>, v: &Vec<char>, lo: usize, hi: usize) -> (b: bool)
    requires
        lo <= hi <= v.len(),
    ensures
        b == seqs_of(list@).contains(v@.subrange(lo as int, hi as int)),
{
    let ghost seg = v@.subrange(lo as int, hi as int);
    let mut i: usize = 0;
    while i < list.len()
        invariant
            i <= list.len(),
            seg == v@.subrange(lo as int, hi as int),
            lo <= hi <= v.len(),
            forall|j: int| 0 <= j < i ==> seqs_of(list@)[j] != seg,
        decreases list.len() - i,
    {
        if range_eq(v, lo, hi, &list[i]) {
            assert(seqs_of(list@)[i as int] == seg);
            return true;
        }
        i = i + 1;
    }
    false
}

/// Whether `seg` names a source directory (`src`, `lib`, `dist`, or one of
/// the custom `dirs`).
pub fn is_source_dir(dirs: Option<&[String]>, seg: &str) -> (b: bool)
    ensures
        b == is_source_dir_spec(dirs_view(dirs), seg@),
{
    let list = source_dir_list(dirs);
    let v = chars_of(seg);
    let r = in_dir_list(&list, &v, 0, v.len());
    assert(v@.subrange(0, v.len() as int) =~= seg@);
    r
}

/// Everything before the last `/` of `filename`, or nothing if it has none.
pub open spec fn dir_part(filename: Seq<char>) -> Seq<char> {
    match last_index_of(filename, '/') {
        Some(i) => filename.take(i),
        None => Seq::<char>::empty(),
    }
}

/// One step of relative resolution: `.` and empty parts are skipped, `..`
/// drops the last segment (if any), anything else is appended.
pub open spec fn apply_part(stack: Seq<Seq<char>>, part: Seq<char>) -> Seq<Seq<char>> {
    if part.len() == 0 || part == seq!['.'] {
        stack
    } else if part == seq!['.', '.'] {
        if stack.len() > 0 {
            stack.drop_last()
        } else {
            stack
        }
    } else {
        stack.push(part)
    }
}

pub open spec fn apply_parts(stack: Seq<Seq<char>>, parts: Seq<Seq<char>>) -> Seq<Seq<char>>
    decreases parts.len(),
{
    if parts.len() == 0 {
        stack
    } else {
        apply_part(apply_parts(stack, parts.drop_last()), parts.last())
    }
}

/// Segments of `import_path` resolved against the directory of `filename`.
pub open spec fn resolved_segments(filename: Seq<char>, import_path: Seq<char>) -> Seq<Seq<char>> {
    apply_parts(nonempty_pieces(split_on(dir_part(filename), '/')), split_on(import_path, '/'))
}

/// `import_path` resolved against the directory of `filename`, segments
/// joined with `/`.
pub open spec fn resolve_path(filename: Seq<char>, import_path: Seq<char>) -> Seq<char> {
    join_with(resolved_segments(filename, import_path), '/')
}

/// Index just past the directory part of `v` (the position of its last `/`,
/// or 0 when it has none).
fn dir_end(v: &Vec<char>) -> (e: usize)
    ensures
        e <= v.len(),
        v@.take(e as int) == dir_part(v@),
{
    let mut j = v.len();
    assert(v@.take(v.len() as int) =~= v@);
    while j > 0
        invariant
            j <= v.len(),
            last_index_of(v@, '/') == last_index_of(v@.take(j as int), '/'),
        decreases j,
    {
        assert(v@.take(j as int).drop_last() =~= v@.take(j - 1));
        if v[j - 1] == '/' {
            return j - 1;
        }
        j = j - 1;
    }
    assert(v@.take(0) =~= Seq::<char>::empty());
    0
}

/// Resolves a relative import path against the directory of the importing
/// file: `.` and empty segments are skipped, `..` pops, anything else is
/// pushed; the result is joined with `/`.
pub fn resolve_relative_path(filename: &str, import_path: &str) -> (r: String)
    ensures
        r@ == resolve_path(filename@, import_path@),
{
    let fv = chars_of(filename);
    let d = dir_end(&fv);
    let dir = subvec(&fv, 0, d);
    assert(dir@ =~= dir_part(filename@));
    let db = nonempty_bounds(&dir, '/');
    let ghost base = nonempty_pieces(split_on(dir@, '/'));
    let mut stack: Vec<Vec<char>> = Vec::new();
    let mut k: usize = 0;
    while k < db.len()
        invariant
            k <= db.len() == base.len(),
            base == nonempty_pieces(split_on(dir@, '/')),
            forall|j: int| #![trigger db[j]] 0 <= j < db.len() ==> db[j].0 < db[j].1 <= dir.len(),
            forall|j: int|
                0 <= j < db.len() ==> dir@.subrange(db[j].0 as int, db[j].1 as int)
                    == #[trigger] base[j],
            seqs_of(stack@) == base.take(k as int),
        decreases db.len() - k,
    {
        let seg = subvec(&dir, db[k].0, db[k].1);
        assert(seg@ == base[k as int]);
        let ghost before = seqs_of(stack@);
        stack.push(seg);
        assert(seqs_of(stack@) =~= before.push(base[k as int]));
        assert(base.take(k + 1) =~= base.take(k as int).push(base[k as int]));
        k = k + 1;
        assert(seqs_of(stack@) =~= base.take(k as int));
    }
    assert(base.take(db.len() as int) =~= base);
    let iv = chars_of(import_path);
    let ib = split_bounds(&iv, '/');
    let ghost parts = split_on(iv@, '/');
    let mut k: usize = 0;
    while k < ib.len()
        invariant
            k <= ib.len() == parts.len(),
            parts == split_on(iv@, '/'),
            forall|j: int| #![trigger ib[j]] 0 <= j < ib.len() ==> ib[j].0 <= ib[j].1 <= iv.len(),
            forall|j: int|
                0 <= j < ib.len() ==> iv@.subrange(ib[j].0 as int, ib[j].1 as int)
                    == #[trigger] parts[j],
            seqs_of(stack@) == apply_parts(base, parts.take(k as int)),
        decreases ib.len() - k,
    {
        let (lo, hi) = ib[k];
        let ghost part = parts[k as int];
        assert(iv@.subrange(lo as int, hi as int) == part);
        assert(parts.take(k + 1).drop_last() =~= parts.take(k as int));
        assert(parts.take(k + 1).last() == part);
        let ghost before = seqs_of(stack@);
        if lo == hi {
            assert(part.len() == 0);
        } else if hi - lo == 1 && iv[lo] == '.' {
            assert(part =~= seq!['.']);
        } else if hi - lo == 2 && iv[lo] == '.' && iv[lo + 1] == '.' {
            assert(part =~= seq!['.', '.']);
            if stack.len() > 0 {
                stack.pop();
                assert(seqs_of(stack@) =~= before.drop_last());
            }
        } else {
            assert(part != seq!['.']) by {
                if hi - lo == 1 {
                    assert(part[0] == iv@[lo as int]);
                }
            }
            assert(part != seq!['.', '.']) by {
                if hi - lo == 2 {
                    assert(part[0] == iv@[lo as int]);
                    assert(part[1] == iv@[lo + 1]);
                }
            }
            let seg = subvec(&iv, lo, hi);
            stack.push(seg);
            assert(seqs_of(stack@) =~= before.push(part));
        }
        k = k + 1;
    }
    assert(parts.take(ib.len() as int) =~= parts);
    let mut out = String::new();
    push_joined(&mut out, &stack, '/');
    assert(out@ =~= resolve_path(filename@, import_path@));
    out
}

/// Index of the last segment of `segs` that names a source directory.
pub open spec fn last_source_dir_index(segs: Seq<Seq<char>>, dirs: Option<Seq<Seq<char>>>) -> Option<
    int,
>
    decreases segs.len(),
{
    if segs.len() == 0 {
        None
    } else if is_source_dir_spec(dirs, segs.last()) {
        Some(segs.len() - 1)
    } else {
        last_source_dir_index(segs.drop_last(), dirs)
    }
}

pub proof fn lemma_last_source_dir_index(segs: Seq<Seq<char>>, dirs: Option<Seq<Seq<char>>>)
    ensures
        match last_source_dir_index(segs, dirs) {
            Some(k) => 0 <= k < segs.len() && is_source_dir_spec(dirs, segs[k]) && forall|j: int|
                k < j < segs.len() ==> !is_source_dir_spec(dirs, #[trigger] segs[j]),
            None => forall|j: int| 0 <= j < segs.len() ==> !is_source_dir_spec(dirs, #[trigger] segs[j]),
        },
    decreases segs.len(),
{
    if segs.len() > 0 {
        lemma_last_source_dir_index(segs.drop_last(), dirs);
        assert(forall|j: int| 0 <= j < segs.len() - 1 ==> segs.drop_last()[j] == segs[j]);
    }
}

/// The package that owns a list of path segments: the segment just before
/// the rightmost source directory; failing that, the second-to-last
/// segment; failing that, the only segment.
pub open spec fn package_segment(segs: Seq<Seq<char>>, dirs: Option<Seq<Seq<char>>>) -> Option<
    Seq<char>,
> {
    match last_source_dir_index(segs, dirs) {
        Some(k) if k > 0 => Some(segs[k - 1]),
        _ => if segs.len() >= 2 {
            Some(segs[segs.len() - 2])
        } else if segs.len() == 1 {
            Some(segs[0])
        } else {
            None
        },
    }
}

/// The package that owns a resolved path, looking at its non-empty segments.
pub open spec fn package_of_path(resolved: Seq<char>, dirs: Option<Seq<Seq<char>>>) -> Option<
    Seq<char>,
> {
    package_segment(nonempty_pieces(split_on(resolved, '/')), dirs)
}

/// Identifies the package that owns `resolved` (see [`package_of_path`]).
pub fn extract_package_from_path<'a>(resolved: &'a str, source_dirs: Option<&[String]>) -> (r:
    Option<&'a str>)
    ensures
        r matches Some(p) ==> package_of_path(resolved@, dirs_view(source_dirs)) == Some(p@),
        r is None ==> package_of_path(resolved@, dirs_view(source_dirs)) is None,
{
    let ghost dirs = dirs_view(source_dirs);
    let list = source_dir_list(source_dirs);
    let v = chars_of(resolved);
    let nb = nonempty_bounds(&v, '/');
    let ghost segs = nonempty_pieces(split_on(v@, '/'));
    let mut best: Option<usize> = None;
    let mut j: usize = 0;
    while j < nb.len()
        invariant
            j <= nb.len() == segs.len(),
            segs == nonempty_pieces(split_on(v@, '/')),
            seqs_of(list@) == active_dirs(dirs),
            forall|i: int| #![trigger nb[i]] 0 <= i < nb.len() ==> nb[i].0 < nb[i].1 <= v.len(),
            forall|i: int|
                0 <= i < nb.len() ==> v@.subrange(nb[i].0 as int, nb[i].1 as int)
                    == #[trigger] segs[i],
            best == (match last_source_dir_index(segs.take(j as int), dirs) {
                Some(k) if k > 0 => Some((k - 1) as usize),
                _ => None::<usize>,
            }),
        decreases nb.len() - j,
    {
        assert(segs.take(j + 1).drop_last() =~= segs.take(j as int));
        assert(segs.take(j + 1).last() == segs[j as int]);
        if in_dir_list(&list, &v, nb[j].0, nb[j].1) {
            best = if j > 0 {
                Some(j - 1)
            } else {
                None
            };
        }
        j = j + 1;
    }
    assert(segs.take(nb.len() as int) =~= segs);
    let n = nb.len();
    let idx: usize = match best {
        Some(b) => b,
        None => {
            if n >= 2 {
                n - 2
            } else if n == 1 {
                0
            } else {
                return None;
            }
        },
    };
    proof {
        lemma_last_source_dir_index(segs, dirs);
    }
    let (lo, hi) = nb[idx];
    assert(v@ == resolved@);
    Some(resolved.substring_char(lo, hi))
}

/// The last `/`-separated segment of `s` (all of `s` when it has no `/`).
pub open spec fn last_segment(s: Seq<char>) -> Seq<char> {
    split_on(s, '/').last()
}

/// Prefix and leaf of a bare import `pkg[/deep/path/Leaf]`: `None` when the
/// first segment is empty; the leaf is the last segment when there is more
/// than one; the prefix is the segment just before the rightmost source
/// directory among the segments after the first, or the first segment.
pub open spec fn bare_import_parts(path: Seq<char>, dirs: Option<Seq<Seq<char>>>) -> Option<
    (Seq<char>, Option<Seq<char>>),
> {
    let segs = split_on(path, '/');
    if segs[0].len() == 0 {
        None
    } else if segs.len() == 1 {
        Some((segs[0], None))
    } else {
        let prefix = match last_source_dir_index(segs.drop_first(), dirs) {
            Some(k) => segs[k],
            None => segs[0],
        };
        Some((prefix, Some(segs.last())))
    }
}

/// Prefix and leaf of a scoped import `@scope/pkg[/deep/path/Leaf]`:
/// `None` unless both `scope` and `pkg` are non-empty; the prefix is
/// `scope-pkg`; the leaf is the last segment when there is a deeper path.
pub open spec fn scoped_import_parts(path: Seq<char>) -> Option<(Seq<char>, Option<Seq<char>>)> {
    let segs = split_on(path.skip(1), '/');
    if segs.len() < 2 || segs[0].len() == 0 || segs[1].len() == 0 {
        None
    } else {
        Some(
            (
                segs[0] + seq!['-'] + segs[1],
                if segs.len() >= 3 {
                    Some(segs.last())
                } else {
                    None
                },
            ),
        )
    }
}

/// Parses a bare (non-scoped, non-relative) import such as `lodash/fp/get`
/// into its prefix and optional leaf (see [`bare_import_parts`]).
pub fn parse_bare_import<'a>(path: &'a str, source_dirs: Option<&[String]>) -> (r: Option<
    (&'a str, Option<&'a str>),
>)
    ensures
        match bare_import_parts(path@, dirs_view(source_dirs)) {
            Some((p, l)) => r matches Some((rp, rl)) && rp@ == p && match l {
                Some(l) => rl matches Some(x) && x@ == l,
                None => rl is None,
            },
            None => r is None,
        },
{
    let ghost dirs = dirs_view(source_dirs);
    let v = chars_of(path);
    let b = split_bounds(&v, '/');
    let ghost segs = split_on(v@, '/');
    assert(v@ == path@);
    if b[0].0 == b[0].1 {
        assert(segs[0].len() == 0);
        return None;
    }
    if b.len() == 1 {
        return Some((path.substring_char(b[0].0, b[0].1), None));
    }
    let list = source_dir_list(source_dirs);
    let ghost rest = segs.drop_first();
    let mut best: usize = 0;
    let mut found = false;
    let mut j: usize = 1;
    while j < b.len()
        invariant
            1 <= j <= b.len() == segs.len(),
            segs == split_on(v@, '/'),
            rest == segs.drop_first(),
            seqs_of(list@) == active_dirs(dirs),
            forall|i: int| #![trigger b[i]] 0 <= i < b.len() ==> b[i].0 <= b[i].1 <= v.len(),
            forall|i: int|
                0 <= i < b.len() ==> v@.subrange(b[i].0 as int, b[i].1 as int)
                    == #[trigger] segs[i],
            match last_source_dir_index(rest.take(j - 1), dirs) {
                Some(k) => found && best == k,
                None => !found,
            },
        decreases b.len() - j,
    {
        assert(rest.take(j as int).drop_last() =~= rest.take(j - 1));
        assert(rest.take(j as int).last() == segs[j as int]);
        if in_dir_list(&list, &v, b[j].0, b[j].1) {
            best = j - 1;
            found = true;
        }
        j = j + 1;
    }
    assert(rest.take(b.len() - 1) =~= rest);
    proof {
        lemma_last_source_dir_index(rest, dirs);
    }
    let p = if found {
        best
    } else {
        0
    };
    let last = b.len() - 1;
    Some((path.substring_char(b[p].0, b[p].1), Some(path.substring_char(b[last].0, b[last].1))))
}

/// Parses a scoped import `@scope/pkg[/deep/path/Leaf]` into the prefix
/// `scope-pkg` and an optional leaf (see [`scoped_import_parts`]).
pub fn parse_scoped_import<'a>(path: &'a str) -> (r: Option<(String, Option<&'a str>)>)
    requires
        path@.len() > 0,
        path@[0] == '@',
    ensures
        match scoped_import_parts(path@) {
            Some((p, l)) => r matches Some((rp, rl)) && rp@ == p && match l {
                Some(l) => rl matches Some(x) && x@ == l,
                None => rl is None,
            },
            None => r is None,
        },
{
    let v = chars_of(path);
    let w = subvec(&v, 1, v.len());
    assert(w@ =~= path@.skip(1));
    let b = split_bounds(&w, '/');
    let ghost segs = split_on(w@, '/');
    if b.len() < 2 || b[0].0 == b[0].1 || b[1].0 == b[1].1 {
        return None;
    }
    let mut prefix = String::new();
    push_range(&mut prefix, &w, b[0].0, b[0].1);
    string_push(&mut prefix, '-');
    push_range(&mut prefix, &w, b[1].0, b[1].1);
    assert(prefix@ =~= segs[0] + seq!['-'] + segs[1]);
    if b.len() >= 3 {
        let last = b.len() - 1;
        let lo = b[last].0 + 1;
        let hi = b[last].1 + 1;
        assert(path@.subrange(lo as int, hi as int) =~= w@.subrange(
            b[last as int].0 as int,
            b[last as int].1 as int,
        ));
        Some((prefix, Some(path.substring_char(lo, hi))))
    } else {
        Some((prefix, None))
    }
}

/// `.index`
pub open spec fn index_suffix() -> Seq<char> {
    seq!['.', 'i', 'n', 'd', 'e', 'x']
}

/// The chunk name built from a prefix and an optional leaf:
/// `camelPrefix.strippedLeaf`, `camelPrefix.index` for a trailing slash
/// without leaf, or just `camelPrefix`.
pub open spec fn format_name(prefix: Seq<char>, leaf: Option<Seq<char>>, trailing_slash: bool) -> Seq<
    char,
> {
    match leaf {
        Some(l) => camel_case(prefix).push('.') + strip_ext(l),
        None => if trailing_slash {
            camel_case(prefix) + index_suffix()
        } else {
            camel_case(prefix)
        },
    }
}

/// Appends `.` and the stem of `v[lo..hi]` to `out`.
fn push_dot_stem(out: &mut String, v: &Vec<char>, lo: usize, hi: usize)
    requires
        lo <= hi <= v.len(),
    ensures
        final(out)@ == old(out)@.push('.') + strip_ext(v@.subrange(lo as int, hi as int)),
{
    let e = stem_end(v, lo, hi);
    string_push(out, '.');
    push_range(out, v, lo, e);
}

/// Formats the final chunk name (see [`format_name`]).
pub fn format_chunk_name(prefix: &str, leaf: Option<&str>, trailing_slash: bool) -> (r: String)
    ensures
        r@ == format_name(
            prefix@,
            match leaf {
                Some(l) => Some(l@),
                None => None,
            },
            trailing_slash,
        ),
{
    let mut out = String::new();
    write_camel_case(prefix, &mut out);
    match leaf {
        Some(l) => {
            let lv = chars_of(l);
            push_dot_stem(&mut out, &lv, 0, lv.len());
            assert(lv@.subrange(0, lv.len() as int) =~= l@);
        },
        None => {
            if trailing_slash {
                string_push(&mut out, '.');
                string_push(&mut out, 'i');
                string_push(&mut out, 'n');
                string_push(&mut out, 'd');
                string_push(&mut out, 'e');
                string_push(&mut out, 'x');
            }
        },
    }
    assert(out@ =~= format_name(
        prefix@,
        match leaf {
            Some(l) => Some(l@),
            None => None,
        },
        trailing_slash,
    ));
    out
}

/// Chunk name of a relative import: the camelCased package that owns the
/// resolved path, `.`, and the stem of the import's last segment.
pub open spec fn relative_name(path: Seq<char>, filename: Seq<char>, dirs: Option<Seq<Seq<char>>>) -> Option<
    Seq<char>,
> {
    match package_of_path(resolve_path(filename, path), dirs) {
        Some(pkg) => Some(camel_case(pkg).push('.') + strip_ext(last_segment(path))),
        None => None,
    }
}

/// Handles relative imports (`./foo`, `../bar`) (see [`relative_name`]).
pub fn chunk_name_relative(path: &str, filename: &str, source_dirs: Option<&[String]>) -> (r:
    Option<String>)
    ensures
        r matches Some(n) ==> relative_name(path@, filename@, dirs_view(source_dirs)) == Some(n@),
        r is None ==> relative_name(path@, filename@, dirs_view(source_dirs)) is None,
{
    let resolved = resolve_relative_path(filename, path);
    let pkg = match extract_package_from_path(resolved.as_str(), source_dirs) {
        Some(p) => p,
        None => return None,
    };
    let v = chars_of(path);
    let b = split_bounds(&v, '/');
    let last = b.len() - 1;
    let mut out = String::new();
    write_camel_case(pkg, &mut out);
    push_dot_stem(&mut out, &v, b[last].0, b[last].1);
    assert(out@ =~= camel_case(pkg@).push('.') + strip_ext(last_segment(path@)));
    Some(out)
}

/// The chunk name of an import specifier (`None` when none can be made):
/// empty and absolute (`/…`) specifiers get none; one trailing `/` is set
/// aside; relative specifiers (`.…`) need the importing file; `@/…` is a
/// bare import of what follows `@/`; other `@…` specifiers are scoped;
/// everything else is bare.
pub open spec fn chunk_name(
    import_path: Seq<char>,
    filename: Option<Seq<char>>,
    dirs: Option<Seq<Seq<char>>>,
) -> Option<Seq<char>> {
    if import_path.len() == 0 || import_path[0] == '/' {
        None
    } else {
        let trailing = import_path.last() == '/';
        let path = if trailing {
            import_path.drop_last()
        } else {
            import_path
        };
        if import_path[0] == '.' {
            match filename {
                Some(f) => relative_name(path, f, dirs),
                None => None,
            }
        } else {
            let parts = if import_path[0] == '@' && path.len() > 1 && path[1] == '/' {
                bare_import_parts(path.skip(2), dirs)
            } else if import_path[0] == '@' {
                scoped_import_parts(path)
            } else {
                bare_import_parts(path, dirs)
            };
            match parts {
                Some((p, l)) => Some(format_name(p, l, trailing)),
                None => None,
            }
        }
    }
}

pub open spec fn opt_view(s: Option<&str>) -> Option<Seq<char>> {
    match s {
        Some(t) => Some(t@),
        None => None,
    }
}

/// Produces the webpack chunk name of an import specifier (see
/// [`chunk_name`]).
pub fn generate_chunk_name(import_path: &str, filename: Option<&str>, source_dirs: Option<&[String]>) -> (r: Option<String>)
    ensures
        r matches Some(n) ==> chunk_name(import_path@, opt_view(filename), dirs_view(source_dirs))
            == Some(n@),
        r is None ==> chunk_name(import_path@, opt_view(filename), dirs_view(source_dirs)) is None,
{
    let v = chars_of(import_path);
    if v.len() == 0 {
        return None;
    }
    let first = v[0];
    if first == '/' {
        return None;
    }
    let trailing = v[v.len() - 1] == '/';
    let end = if trailing {
        v.len() - 1
    } else {
        v.len()
    };
    let path = import_path.substring_char(0, end);
    assert(path@ =~= if trailing {
        import_path@.drop_last()
    } else {
        import_path@
    });
    if first == '.' {
        return match filename {
            Some(f) => chunk_name_relative(path, f, source_dirs),
            None => None,
        };
    }
    if first == '@' && end > 1 && v[1] == '/' {
        let inner = import_path.substring_char(2, end);
        assert(inner@ =~= path@.skip(2));
        match parse_bare_import(inner, source_dirs) {
            Some((p, l)) => Some(format_chunk_name(p, l, trailing)),
            None => None,
        }
    } else if first == '@' {
        match parse_scoped_import(path) {
            Some((p, l)) => Some(format_chunk_name(p.as_str(), l, trailing)),
            None => None,
        }
    } else {
        match parse_bare_import(path, source_dirs) {
            Some((p, l)) => Some(format_chunk_name(p, l, trailing)),
            None => None,
        }
    }
}

} // verus!

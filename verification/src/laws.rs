//! Properties of the naming rules and of comment rewriting that hold for
//! every input.

use vstd::prelude::*;
use crate::comments::{
    chunk_name_comment_text, chunk_name_comment_view, chunk_name_key, is_stale_magic,
    kept_comments, mode_comment_text, mode_comment_view, mode_key, rewritten_comments, CommentView,
};
use crate::naming::{
    apply_part, apply_parts, ascii_upper, bare_import_parts, camel_case, chunk_name, dir_part,
    format_name, index_suffix, is_word_separator, lemma_last_source_dir_index, package_of_path,
    resolve_path, resolved_segments, scoped_import_parts, strip_ext,
};
use crate::plugin::{absolute_filename_spec, joined_filename};
use crate::text::{
    contains_run, join_with, lemma_last_index_of, lemma_nonempty_pieces,
    lemma_split_pieces_lack_separator, lemma_split_without_separator, nonempty_pieces, split_on,
};

verus! {

/// camelCase output never holds a word separator.
pub proof fn lemma_camel_case_has_no_separators(s: Seq<char>)
    ensures
        forall|i: int| 0 <= i < camel_case(s).len() ==> !is_word_separator(#[trigger] camel_case(s)[i]),
    decreases s.len(),
{
    if s.len() > 0 {
        lemma_camel_case_has_no_separators(s.drop_last());
        let c = s.last();
        let r = camel_case(s.drop_last());
        assert(!is_word_separator(c) ==> !is_word_separator(ascii_upper(c)));
        assert forall|i: int| 0 <= i < camel_case(s).len() implies !is_word_separator(
            #[trigger] camel_case(s)[i],
        ) by {
            if i < r.len() {
                assert(camel_case(s)[i] == r[i]);
            }
        }
    }
}

/// A name without separators is its own camelCase form.
pub proof fn lemma_camel_case_keeps_plain_names(s: Seq<char>)
    requires
        forall|i: int| 0 <= i < s.len() ==> !is_word_separator(#[trigger] s[i]),
    ensures
        camel_case(s) == s,
    decreases s.len(),
{
    if s.len() > 0 {
        assert(forall|i: int| 0 <= i < s.len() - 1 ==> s.drop_last()[i] == s[i]);
        lemma_camel_case_keeps_plain_names(s.drop_last());
        assert(s.drop_last().push(s.last()) =~= s);
    }
}

/// camelCasing twice is camelCasing once.
pub proof fn lemma_camel_case_idempotent(s: Seq<char>)
    ensures
        camel_case(camel_case(s)) == camel_case(s),
{
    lemma_camel_case_has_no_separators(s);
    lemma_camel_case_keeps_plain_names(camel_case(s));
}

/// Stripping an extension keeps a prefix of the name, and removes at most a
/// final `.ext` that holds no other `.` and does not start the name.
pub proof fn lemma_strip_ext_removes_last_extension(s: Seq<char>)
    ensures
        strip_ext(s).len() <= s.len(),
        strip_ext(s) == s.take(strip_ext(s).len() as int),
        strip_ext(s).len() < s.len() ==> {
            &&& strip_ext(s).len() > 0
            &&& s[strip_ext(s).len() as int] == '.'
            &&& forall|j: int| strip_ext(s).len() < j < s.len() ==> s[j] != '.'
        },
{
    lemma_last_index_of(s, '.');
    assert(s.take(s.len() as int) =~= s);
}

/// The package found for a path is one of its non-empty segments, and a
/// package is found whenever the path has a non-empty segment.
pub proof fn lemma_package_is_a_path_segment(resolved: Seq<char>, dirs: Option<Seq<Seq<char>>>)
    ensures
        package_of_path(resolved, dirs) is None <==> nonempty_pieces(split_on(resolved, '/')).len()
            == 0,
        package_of_path(resolved, dirs) matches Some(p) ==> p.len() > 0 && split_on(
            resolved,
            '/',
        ).contains(p) && forall|j: int| 0 <= j < p.len() ==> p[j] != '/',
{
    let segs = nonempty_pieces(split_on(resolved, '/'));
    lemma_nonempty_pieces(split_on(resolved, '/'));
    lemma_last_source_dir_index(segs, dirs);
    lemma_split_pieces_lack_separator(resolved, '/');
    if let Some(p) = package_of_path(resolved, dirs) {
        let i = choose|i: int| 0 <= i < segs.len() && segs[i] == p;
        assert(segs[i].len() > 0 && split_on(resolved, '/').contains(segs[i]));
        let k = choose|k: int| 0 <= k < split_on(resolved, '/').len() && split_on(resolved, '/')[k] == p;
        assert forall|j: int| 0 <= j < p.len() implies p[j] != '/' by {
            assert(split_on(resolved, '/')[k][j] != '/');
        }
    }
}

/// Scoped specifiers (`@scope/…`, not the `@/` alias) are named the same
/// whatever the importing file and the source directories.
pub proof fn lemma_scoped_names_ignore_context(
    import_path: Seq<char>,
    f1: Option<Seq<char>>,
    f2: Option<Seq<char>>,
    d1: Option<Seq<Seq<char>>>,
    d2: Option<Seq<Seq<char>>>,
)
    requires
        import_path.len() > 0,
        import_path[0] == '@',
        !(import_path.len() > 2 && import_path[1] == '/'),
    ensures
        chunk_name(import_path, f1, d1) == chunk_name(import_path, f2, d2),
{
}

/// Specifiers that are not relative are named without regard to the
/// importing file.
pub proof fn lemma_non_relative_names_ignore_filename(
    import_path: Seq<char>,
    f1: Option<Seq<char>>,
    f2: Option<Seq<char>>,
    dirs: Option<Seq<Seq<char>>>,
)
    requires
        import_path.len() > 0,
        import_path[0] != '.',
    ensures
        chunk_name(import_path, f1, dirs) == chunk_name(import_path, f2, dirs),
{
}

/// Empty and absolute specifiers get no chunk name, nor do relative ones
/// without an importing file.
pub proof fn lemma_unnameable_specifiers(import_path: Seq<char>, dirs: Option<Seq<Seq<char>>>)
    ensures
        import_path.len() == 0 ==> chunk_name(import_path, None, dirs) is None,
        import_path.len() > 0 && import_path[0] == '/' ==> forall|f: Option<Seq<char>>|
            chunk_name(import_path, f, dirs) is None,
        import_path.len() > 0 && import_path[0] == '.' ==> chunk_name(import_path, None, dirs)
            is None,
{
}

/// A single-segment bare package is named by its camelCase form, and the
/// same package with a trailing slash by that form plus `.index`; the two
/// never coincide.
pub proof fn lemma_trailing_slash_names_the_index(
    pkg: Seq<char>,
    filename: Option<Seq<char>>,
    dirs: Option<Seq<Seq<char>>>,
)
    requires
        pkg.len() > 0,
        pkg[0] != '.',
        pkg[0] != '@',
        forall|i: int| 0 <= i < pkg.len() ==> pkg[i] != '/',
    ensures
        chunk_name(pkg, filename, dirs) == Some(camel_case(pkg)),
        chunk_name(pkg.push('/'), filename, dirs) == Some(camel_case(pkg) + index_suffix()),
        chunk_name(pkg, filename, dirs) != chunk_name(pkg.push('/'), filename, dirs),
{
    lemma_split_without_separator(pkg, '/');
    let with_slash = pkg.push('/');
    assert(with_slash.drop_last() =~= pkg);
    assert(with_slash[0] == pkg[0]);
    assert(bare_import_parts(pkg, dirs) == Some((pkg, None::<Seq<char>>)));
    assert((camel_case(pkg) + index_suffix()).len() > camel_case(pkg).len());
}

/// Filtering a concatenation filters each part.
pub proof fn lemma_kept_comments_append(a: Seq<CommentView>, b: Seq<CommentView>)
    ensures
        kept_comments(a + b) == kept_comments(a) + kept_comments(b),
    decreases b.len(),
{
    if b.len() == 0 {
        assert(a + b =~= a);
        assert(kept_comments(a) + kept_comments(b) =~= kept_comments(a));
    } else {
        assert((a + b).drop_last() =~= a + b.drop_last());
        assert((a + b).last() == b.last());
        lemma_kept_comments_append(a, b.drop_last());
        if is_stale_magic(b.last()) {
        } else {
            assert(kept_comments(a) + kept_comments(b.drop_last()).push(b.last()) =~= (
            kept_comments(a) + kept_comments(b.drop_last())).push(b.last()));
        }
    }
}

/// No kept comment is a stale magic comment; a list without stale magic
/// comments is kept whole.
pub proof fn lemma_kept_comments_are_clean(cs: Seq<CommentView>)
    ensures
        forall|i: int|
            0 <= i < kept_comments(cs).len() ==> !is_stale_magic(#[trigger] kept_comments(cs)[i]),
        (forall|i: int| 0 <= i < cs.len() ==> !is_stale_magic(#[trigger] cs[i])) ==> kept_comments(
            cs,
        ) == cs,
        kept_comments(kept_comments(cs)) == kept_comments(cs),
    decreases cs.len(),
{
    if cs.len() > 0 {
        let init = cs.drop_last();
        lemma_kept_comments_are_clean(init);
        let r = kept_comments(init);
        assert forall|i: int| 0 <= i < kept_comments(cs).len() implies !is_stale_magic(
            #[trigger] kept_comments(cs)[i],
        ) by {
            if i < r.len() {
                assert(kept_comments(cs)[i] == r[i]);
            }
        }
        if forall|i: int| 0 <= i < cs.len() ==> !is_stale_magic(#[trigger] cs[i]) {
            assert(forall|i: int| 0 <= i < init.len() ==> init[i] == cs[i]);
            assert(!is_stale_magic(cs[cs.len() - 1]));
            assert(init.push(cs.last()) =~= cs);
        }
        let k = kept_comments(cs);
        assert forall|i: int| 0 <= i < k.len() implies !is_stale_magic(#[trigger] k[i]) by {}
        lemma_kept_whole(k);
    }
}

proof fn lemma_kept_whole(cs: Seq<CommentView>)
    requires
        forall|i: int| 0 <= i < cs.len() ==> !is_stale_magic(#[trigger] cs[i]),
    ensures
        kept_comments(cs) == cs,
    decreases cs.len(),
{
    if cs.len() > 0 {
        assert(forall|i: int| 0 <= i < cs.len() - 1 ==> cs.drop_last()[i] == cs[i]);
        lemma_kept_whole(cs.drop_last());
        assert(!is_stale_magic(cs[cs.len() - 1]));
        assert(cs.drop_last().push(cs.last()) =~= cs);
    }
}

/// The two generated comments are themselves magic comments, so a later
/// rewrite replaces them.
pub proof fn lemma_generated_comments_are_magic(name: Seq<char>)
    ensures
        is_stale_magic(mode_comment_view()),
        is_stale_magic(chunk_name_comment_view(name)),
{
    reveal_strlit(" webpackMode: \"lazy-once\" ");
    reveal_strlit("webpackMode");
    reveal_strlit(" webpackChunkName: \"");
    reveal_strlit("webpackChunkName");
    let m = mode_comment_text();
    assert(m.subrange(1, 1 + mode_key().len() as int) =~= mode_key());
    assert(contains_run(m, mode_key()));
    let t = chunk_name_comment_text(name);
    assert(t.subrange(1, 1 + chunk_name_key().len() as int) =~= chunk_name_key());
    assert(contains_run(t, chunk_name_key()));
}

/// Rewriting the comments of an import twice with the same chunk name
/// gives what rewriting once gives.
pub proof fn lemma_rewrite_is_idempotent(cs: Seq<CommentView>, name: Seq<char>)
    ensures
        rewritten_comments(rewritten_comments(cs, name), name) == rewritten_comments(cs, name),
{
    let fresh = seq![mode_comment_view(), chunk_name_comment_view(name)];
    lemma_generated_comments_are_magic(name);
    lemma_kept_comments_append(kept_comments(cs), fresh);
    lemma_kept_comments_are_clean(cs);
    assert(fresh.drop_last() =~= seq![mode_comment_view()]);
    assert(seq![mode_comment_view()].drop_last() =~= Seq::<CommentView>::empty());
    let one = seq![mode_comment_view()];
    assert(fresh.last() == chunk_name_comment_view(name));
    assert(kept_comments(fresh) == kept_comments(one));
    assert(one.last() == mode_comment_view());
    assert(kept_comments(one) == kept_comments(one.drop_last()));
    assert(kept_comments(fresh) =~= Seq::<CommentView>::empty());
    assert(kept_comments(cs) + Seq::<CommentView>::empty() =~= kept_comments(cs));
}

/// After a rewrite the comments end with the generated mode and name
/// comments, and no other comment is a `webpackChunkName` / `webpackMode`
/// block comment.
pub proof fn lemma_rewrite_leaves_one_pair_of_magic_comments(cs: Seq<CommentView>, name: Seq<char>)
    ensures
        ({
            let r = rewritten_comments(cs, name);
            &&& r.len() >= 2
            &&& r[r.len() - 2] == mode_comment_view()
            &&& r[r.len() - 1] == chunk_name_comment_view(name)
            &&& forall|i: int| 0 <= i < r.len() - 2 ==> !is_stale_magic(#[trigger] r[i])
        }),
{
    lemma_kept_comments_are_clean(cs);
    let r = rewritten_comments(cs, name);
    let k = kept_comments(cs);
    assert forall|i: int| 0 <= i < r.len() - 2 implies !is_stale_magic(#[trigger] r[i]) by {
        assert(r[i] == k[i]);
    }
}

/// A non-empty segment without `/`.
pub open spec fn clean_segment(s: Seq<char>) -> bool {
    s.len() > 0 && forall|j: int| 0 <= j < s.len() ==> s[j] != '/'
}

proof fn lemma_apply_parts_clean(stack: Seq<Seq<char>>, parts: Seq<Seq<char>>)
    requires
        forall|i: int| 0 <= i < stack.len() ==> clean_segment(#[trigger] stack[i]),
        forall|k: int, j: int|
            0 <= k < parts.len() && 0 <= j < parts[k].len() ==> #[trigger] parts[k][j] != '/',
    ensures
        forall|i: int|
            0 <= i < apply_parts(stack, parts).len() ==> clean_segment(
                #[trigger] apply_parts(stack, parts)[i],
            ),
    decreases parts.len(),
{
    if parts.len() > 0 {
        let init = parts.drop_last();
        assert forall|k: int, j: int|
            0 <= k < init.len() && 0 <= j < init[k].len() implies #[trigger] init[k][j] != '/' by {
            assert(init[k] == parts[k]);
        }
        lemma_apply_parts_clean(stack, init);
        let st = apply_parts(stack, init);
        let part = parts.last();
        assert forall|i: int|
            0 <= i < apply_part(st, part).len() implies clean_segment(
            #[trigger] apply_part(st, part)[i],
        ) by {
            if i < st.len() {
                assert(apply_part(st, part)[i] == st[i]);
            } else {
                assert(apply_part(st, part)[i] == part);
                assert forall|j: int| 0 <= j < part.len() implies part[j] != '/' by {
                    assert(parts[parts.len() - 1][j] != '/');
                }
            }
        }
    }
}

proof fn lemma_join_clean(segs: Seq<Seq<char>>)
    requires
        forall|i: int| 0 <= i < segs.len() ==> clean_segment(#[trigger] segs[i]),
    ensures
        segs.len() > 0 ==> join_with(segs, '/').len() > 0,
        forall|i: int|
            0 <= i < join_with(segs, '/').len() && #[trigger] join_with(segs, '/')[i] == '/' ==> 0
                < i && i + 1 < join_with(segs, '/').len() && join_with(segs, '/')[i + 1] != '/',
    decreases segs.len(),
{
    if segs.len() == 1 {
        assert(clean_segment(segs[0]));
    } else if segs.len() > 1 {
        let init = segs.drop_last();
        assert forall|i: int| 0 <= i < init.len() implies clean_segment(#[trigger] init[i]) by {
            assert(init[i] == segs[i]);
        }
        lemma_join_clean(init);
        let j = join_with(init, '/');
        let last = segs.last();
        assert(clean_segment(segs[segs.len() - 1]));
        let r = join_with(segs, '/');
        assert(r == j.push('/') + last);
        assert forall|i: int| 0 <= i < r.len() && #[trigger] r[i] == '/' implies 0 < i && i + 1
            < r.len() && r[i + 1] != '/' by {
            if i < j.len() {
                assert(r[i] == j[i]);
                if i + 1 < j.len() {
                    assert(r[i + 1] == j[i + 1]);
                }
            } else if i == j.len() {
                assert(r[i + 1] == last[0]);
            } else {
                assert(r[i] == last[i - j.len() - 1]);
            }
        }
    }
}

/// A resolved relative path never starts or ends with `/` and never holds
/// two `/` in a row: all its segments are non-empty.
pub proof fn lemma_resolved_path_has_no_empty_segments(filename: Seq<char>, import_path: Seq<char>)
    ensures
        forall|i: int|
            0 <= i < resolve_path(filename, import_path).len() && #[trigger] resolve_path(
                filename,
                import_path,
            )[i] == '/' ==> 0 < i && i + 1 < resolve_path(filename, import_path).len()
                && resolve_path(filename, import_path)[i + 1] != '/',
{
    let dir_pieces = split_on(dir_part(filename), '/');
    let base = nonempty_pieces(dir_pieces);
    lemma_nonempty_pieces(dir_pieces);
    lemma_split_pieces_lack_separator(dir_part(filename), '/');
    assert forall|i: int| 0 <= i < base.len() implies clean_segment(#[trigger] base[i]) by {
        let k = choose|k: int| 0 <= k < dir_pieces.len() && dir_pieces[k] == base[i];
        assert forall|j: int| 0 <= j < base[i].len() implies base[i][j] != '/' by {
            assert(dir_pieces[k][j] != '/');
        }
    }
    lemma_split_pieces_lack_separator(import_path, '/');
    lemma_apply_parts_clean(base, split_on(import_path, '/'));
    lemma_join_clean(resolved_segments(filename, import_path));
}

/// A working directory given with or without one trailing `/` places a
/// relative filename at the same path, and absolute filenames are kept.
pub proof fn lemma_working_directory_trailing_slash(
    filename: Seq<char>,
    cwd: Seq<char>,
)
    requires
        cwd.len() == 0 || cwd.last() != '/',
    ensures
        joined_filename(filename, Some(cwd.push('/'))) == joined_filename(filename, Some(cwd)),
        filename.len() > 0 && filename[0] == '/' ==> forall|c: Option<Seq<char>>|
            absolute_filename_spec(filename, c) == filename,
{
    assert(cwd.push('/').drop_last() =~= cwd);
}

/// `n` has the shape `prefix` or `prefix.leaf` with a camelCase prefix: one
/// without `-` or `_`.
pub open spec fn camel_prefixed(n: Seq<char>) -> bool {
    exists|p: Seq<char>|
        (forall|i: int| 0 <= i < p.len() ==> !is_word_separator(#[trigger] p[i])) && (n == p
            || exists|l: Seq<char>| n == #[trigger] p.push('.') + l)
}

proof fn lemma_format_name_shape(prefix: Seq<char>, leaf: Option<Seq<char>>, trailing: bool)
    ensures
        camel_prefixed(format_name(prefix, leaf, trailing)),
{
    let p = camel_case(prefix);
    lemma_camel_case_has_no_separators(prefix);
    match leaf {
        Some(l) => {
            assert(format_name(prefix, leaf, trailing) == p.push('.') + strip_ext(l));
        },
        None => {
            if trailing {
                assert(p + index_suffix() =~= p.push('.') + index_suffix().drop_first());
            }
        },
    }
}

/// Every chunk name is a camelCase prefix (no `-` or `_`), alone or
/// followed by `.` and a leaf.
pub proof fn lemma_chunk_name_shape(
    import_path: Seq<char>,
    filename: Option<Seq<char>>,
    dirs: Option<Seq<Seq<char>>>,
)
    ensures
        chunk_name(import_path, filename, dirs) matches Some(n) ==> camel_prefixed(n),
{
    if let Some(n) = chunk_name(import_path, filename, dirs) {
        let trailing = import_path.last() == '/';
        let path = if trailing {
            import_path.drop_last()
        } else {
            import_path
        };
        if import_path[0] == '.' {
            let f = filename->0;
            let pkg = package_of_path(resolve_path(f, path), dirs)->0;
            lemma_camel_case_has_no_separators(pkg);
            assert(n == camel_case(pkg).push('.') + strip_ext(crate::naming::last_segment(path)));
        } else {
            let parts = if import_path[0] == '@' && path.len() > 1 && path[1] == '/' {
                bare_import_parts(path.skip(2), dirs)
            } else if import_path[0] == '@' {
                scoped_import_parts(path)
            } else {
                bare_import_parts(path, dirs)
            };
            let (p, l) = parts->0;
            lemma_format_name_shape(p, l, trailing);
        }
    }
}

/// The last extension is removed whatever its length: a non-empty stem
/// followed by `.` and any text without `.` strips back to the stem.
pub proof fn lemma_strip_ext_removes_any_extension(stem: Seq<char>, ext: Seq<char>)
    requires
        stem.len() > 0,
        forall|i: int| 0 <= i < ext.len() ==> ext[i] != '.',
    ensures
        strip_ext(stem.push('.') + ext) == stem,
{
    let s = stem.push('.') + ext;
    let n = stem.len() as int;
    lemma_last_index_of(s, '.');
    assert(s[n] == '.');
    assert forall|j: int| n < j < s.len() implies s[j] != '.' by {
        assert(s[j] == ext[j - n - 1]);
    }
    assert(crate::text::last_index_of(s, '.') == Some(n));
    assert(s.take(n) =~= stem);
}

/// Where the segments hold a source directory after their first one, the
/// package is the segment just before the rightmost such directory.
pub proof fn lemma_package_before_rightmost_source_dir(
    segs: Seq<Seq<char>>,
    dirs: Option<Seq<Seq<char>>>,
    k: int,
)
    requires
        0 < k < segs.len(),
        crate::naming::active_dirs(dirs).contains(segs[k]),
        forall|j: int| k < j < segs.len() ==> !crate::naming::active_dirs(dirs).contains(#[trigger] segs[j]),
    ensures
        crate::naming::package_segment(segs, dirs) == Some(segs[k - 1]),
{
    lemma_last_source_dir_index(segs, dirs);
    match crate::naming::last_source_dir_index(segs, dirs) {
        Some(m) => {
            if m < k {
                assert(crate::naming::is_source_dir_spec(dirs, segs[k]));
            } else if m > k {
                assert(!crate::naming::active_dirs(dirs).contains(segs[m]));
            }
        },
        None => {
            assert(!crate::naming::is_source_dir_spec(dirs, segs[k]));
        },
    }
}

/// Where no segment is a source directory, the package is the parent
/// directory (second-to-last segment), or the only segment.
pub proof fn lemma_package_without_source_dir(segs: Seq<Seq<char>>, dirs: Option<Seq<Seq<char>>>)
    requires
        forall|j: int| 0 <= j < segs.len() ==> !crate::naming::active_dirs(dirs).contains(#[trigger] segs[j]),
    ensures
        crate::naming::package_segment(segs, dirs) == if segs.len() >= 2 {
            Some(segs[segs.len() - 2])
        } else if segs.len() == 1 {
            Some(segs[0])
        } else {
            None
        },
{
    lemma_last_source_dir_index(segs, dirs);
    if let Some(m) = crate::naming::last_source_dir_index(segs, dirs) {
        assert(!crate::naming::active_dirs(dirs).contains(segs[m]));
    }
}

/// A relative import is named by the package that owns its resolved path
/// under the very source directories it was given (the configured ones, or
/// the defaults when none are configured), then `.` and the stem of its last
/// segment; so its name changes with the source directories exactly as the
/// package does.
pub proof fn lemma_relative_names_use_the_given_dirs(
    import_path: Seq<char>,
    filename: Seq<char>,
    dirs: Option<Seq<Seq<char>>>,
)
    requires
        import_path.len() > 0,
        import_path[0] == '.',
    ensures
        ({
            let path = if import_path.last() == '/' {
                import_path.drop_last()
            } else {
                import_path
            };
            chunk_name(import_path, Some(filename), dirs) == match package_of_path(
                resolve_path(filename, path),
                dirs,
            ) {
                Some(pkg) => Some(
                    camel_case(pkg).push('.') + strip_ext(crate::naming::last_segment(path)),
                ),
                None => None::<Seq<char>>,
            }
        }),
{
}

/// A relative import whose resolved path holds a source directory (of the
/// given ones) after its first segment is named after the segment just
/// before the rightmost such directory.
pub proof fn lemma_relative_name_before_rightmost_source_dir(
    import_path: Seq<char>,
    filename: Seq<char>,
    dirs: Option<Seq<Seq<char>>>,
    k: int,
)
    requires
        import_path.len() > 0,
        import_path[0] == '.',
        import_path.last() != '/',
        ({
            let segs = nonempty_pieces(split_on(resolve_path(filename, import_path), '/'));
            &&& 0 < k < segs.len()
            &&& crate::naming::active_dirs(dirs).contains(segs[k])
            &&& forall|j: int|
                k < j < segs.len() ==> !crate::naming::active_dirs(dirs).contains(#[trigger] segs[j])
        }),
    ensures
        chunk_name(import_path, Some(filename), dirs) == Some(
            camel_case(nonempty_pieces(split_on(resolve_path(filename, import_path), '/'))[k
                - 1]).push('.') + strip_ext(crate::naming::last_segment(import_path)),
        ),
{
    let segs = nonempty_pieces(split_on(resolve_path(filename, import_path), '/'));
    lemma_package_before_rightmost_source_dir(segs, dirs, k);
}

/// A bare import whose segments after the first hold a source directory
/// (of the given ones) takes its prefix from the segment just before the
/// rightmost such directory, and its leaf from the last segment.
pub proof fn lemma_bare_prefix_before_rightmost_source_dir(
    path: Seq<char>,
    filename: Option<Seq<char>>,
    dirs: Option<Seq<Seq<char>>>,
    k: int,
)
    requires
        path.len() > 0,
        path[0] != '.',
        path[0] != '/',
        path[0] != '@',
        path.last() != '/',
        split_on(path, '/')[0].len() > 0,
        0 < k < split_on(path, '/').len(),
        crate::naming::active_dirs(dirs).contains(split_on(path, '/')[k]),
        forall|j: int|
            k < j < split_on(path, '/').len() ==> !crate::naming::active_dirs(dirs).contains(
                #[trigger] split_on(path, '/')[j],
            ),
    ensures
        chunk_name(path, filename, dirs) == Some(
            camel_case(split_on(path, '/')[k - 1]).push('.') + strip_ext(split_on(path, '/').last()),
        ),
{
    let segs = split_on(path, '/');
    let rest = segs.drop_first();
    lemma_last_source_dir_index(rest, dirs);
    assert(rest[k - 1] == segs[k]);
    match crate::naming::last_source_dir_index(rest, dirs) {
        Some(m) => {
            if m < k - 1 {
                assert(crate::naming::is_source_dir_spec(dirs, rest[k - 1]));
            } else if m > k - 1 {
                assert(rest[m] == segs[m + 1]);
                assert(!crate::naming::active_dirs(dirs).contains(segs[m + 1]));
            }
        },
        None => {
            assert(!crate::naming::is_source_dir_spec(dirs, rest[k - 1]));
        },
    }
    assert(bare_import_parts(path, dirs) == Some((segs[k - 1], Some(segs.last()))));
}

/// An `@/` alias import is named exactly like the bare import of what
/// follows `@/`, under the same source directories and importing file.
pub proof fn lemma_alias_names_like_bare_import(
    rest: Seq<char>,
    filename: Option<Seq<char>>,
    dirs: Option<Seq<Seq<char>>>,
)
    requires
        rest.len() > 0,
        rest[0] != '.',
        rest[0] != '/',
        rest[0] != '@',
    ensures
        chunk_name(seq!['@', '/'] + rest, filename, dirs) == chunk_name(rest, filename, dirs),
{
    let a = seq!['@', '/'] + rest;
    assert(a.last() == rest.last());
    assert(a[0] == '@');
    let trailing = rest.last() == '/';
    let path_r = if trailing {
        rest.drop_last()
    } else {
        rest
    };
    let path_a = if trailing {
        a.drop_last()
    } else {
        a
    };
    assert(path_a =~= seq!['@', '/'] + path_r);
    assert(path_a.skip(2) =~= path_r);
    assert(path_a.len() > 1 && path_a[1] == '/');
}

/// A template argument is planned exactly like a string literal holding
/// its flattened path at the same position: same chunk name (resolved
/// against the same importing file and source directories), same position,
/// same warning.
pub proof fn lemma_template_plans_like_its_flattened_string(
    callee: crate::plugin::Callee,
    template: crate::template::TemplateLiteral,
    span: crate::plugin::ArgumentSpan,
    value: String,
    filename: Option<Seq<char>>,
    dirs: Option<Seq<Seq<char>>>,
)
    requires
        crate::template::flatten_template(
            crate::template::cooked_view(template.cooked@),
            template.expr_count as nat,
        ) == Some(value@),
    ensures
        crate::plugin::import_plan(
            (crate::plugin::ImportCall {
                callee: callee,
                first_argument: Some(crate::plugin::ImportArgument::Template { template, span }),
            }),
            filename,
            dirs,
        ) == crate::plugin::import_plan(
            (crate::plugin::ImportCall {
                callee: callee,
                first_argument: Some(crate::plugin::ImportArgument::StringLiteral { value, span }),
            }),
            filename,
            dirs,
        ),
{
}

/// Total length of the cooked quasis.
pub open spec fn cooked_length(q: Seq<Option<Seq<char>>>) -> nat
    decreases q.len(),
{
    if q.len() == 0 {
        0
    } else {
        cooked_length(q.drop_last()) + match q.last() {
            Some(c) => c.len(),
            None => 0,
        }
    }
}

proof fn lemma_flatten_prefix_length(q: Seq<Option<Seq<char>>>, k: nat)
    requires
        k < q.len(),
        forall|i: int| 0 <= i < q.len() ==> (#[trigger] q[i]) is Some,
    ensures
        crate::template::flatten_prefix(q, k) is Some,
        crate::template::flatten_prefix(q, k)->0.len() == cooked_length(q.take(k + 1 as int)) + 7 * k,
    decreases k,
{
    assert(q.take(k + 1 as int).drop_last() =~= q.take(k as int));
    assert(q.take(k + 1 as int).last() == q[k as int]);
    assert(cooked_length(q.take(k + 1 as int)) == cooked_length(q.take(k as int)) + q[k as int]->0.len());
    if k == 0 {
        assert(q.take(0) =~= Seq::<Option<Seq<char>>>::empty());
        assert(q[0] is Some);
    } else {
        lemma_flatten_prefix_length(q, (k - 1) as nat);
        assert(q[k as int] is Some);
        assert(crate::template::dynamic_word().len() == 7);
    }
}

/// With every quasi cooked and one expression between each pair of quasis,
/// the flattened path is as long as all the quasis together plus seven
/// characters (`dynamic`) per expression, and exists exactly when that
/// length is not zero.
pub proof fn lemma_flatten_length(q: Seq<Option<Seq<char>>>, exprs: nat)
    requires
        q.len() > 0,
        exprs + 1 == q.len(),
        forall|i: int| 0 <= i < q.len() ==> (#[trigger] q[i]) is Some,
    ensures
        crate::template::flatten_template(q, exprs) is Some <==> cooked_length(q) + 7 * exprs > 0,
        crate::template::flatten_template(q, exprs) matches Some(r) ==> r.len() == cooked_length(q)
            + 7 * exprs,
{
    lemma_flatten_prefix_length(q, exprs);
    assert(q.take(exprs + 1 as int) =~= q);
    assert(crate::template::pair_count(q.len(), exprs) == exprs);
}

proof fn lemma_flatten_prefix_extend(q: Seq<Option<Seq<char>>>, x: Option<Seq<char>>, k: nat)
    requires
        k < q.len(),
    ensures
        crate::template::flatten_prefix(q.push(x), k) == crate::template::flatten_prefix(q, k),
    decreases k,
{
    assert(q.push(x)[k as int] == q[k as int]);
    if k > 0 {
        lemma_flatten_prefix_extend(q, x, (k - 1) as nat);
    }
}

/// One more expression followed by one more cooked quasi appends `dynamic`
/// and that quasi to the flattened path, whatever the earlier quasis hold.
pub proof fn lemma_flatten_appends_dynamic_per_expression(
    q: Seq<Option<Seq<char>>>,
    c: Seq<char>,
    r: Seq<char>,
)
    requires
        q.len() > 0,
        crate::template::flatten_template(q, (q.len() - 1) as nat) == Some(r),
    ensures
        crate::template::flatten_template(q.push(Some(c)), q.len() as nat) == Some(
            r + crate::template::dynamic_word() + c,
        ),
{
    let n = (q.len() - 1) as nat;
    assert(crate::template::pair_count(q.len(), n) == n);
    assert(crate::template::pair_count(q.push(Some(c)).len(), q.len() as nat) == q.len());
    lemma_flatten_prefix_extend(q, Some(c), n);
    assert(q.push(Some(c))[q.len() as int] == Some(c));
    assert((r + crate::template::dynamic_word() + c).len() > 0);
}

/// A scoped import `@scope/pkg` is named by the camelCase of `scope-pkg`;
/// with one more segment `leaf` it is that name, `.`, and the stem of
/// `leaf`.
pub proof fn lemma_scoped_import_name(
    scope: Seq<char>,
    pkg: Seq<char>,
    leaf: Seq<char>,
    filename: Option<Seq<char>>,
    dirs: Option<Seq<Seq<char>>>,
)
    requires
        scope.len() > 0,
        pkg.len() > 0,
        leaf.len() > 0,
        forall|i: int| 0 <= i < scope.len() ==> scope[i] != '/',
        forall|i: int| 0 <= i < pkg.len() ==> pkg[i] != '/',
        forall|i: int| 0 <= i < leaf.len() ==> leaf[i] != '/',
    ensures
        chunk_name(seq!['@'] + scope.push('/') + pkg, filename, dirs) == Some(
            camel_case(scope.push('-') + pkg),
        ),
        chunk_name(seq!['@'] + scope.push('/') + pkg.push('/') + leaf, filename, dirs) == Some(
            camel_case(scope.push('-') + pkg).push('.') + strip_ext(leaf),
        ),
{
    lemma_split_without_separator(scope, '/');
    lemma_split_without_separator(pkg, '/');
    lemma_split_without_separator(leaf, '/');
    crate::text::lemma_split_concat(scope, pkg, '/');
    crate::text::lemma_split_concat(pkg, leaf, '/');
    crate::text::lemma_split_concat(scope, pkg.push('/') + leaf, '/');
    let p1 = seq!['@'] + scope.push('/') + pkg;
    assert(p1[0] == '@');
    assert(p1[1] == scope[0]);
    assert(p1.last() == pkg.last());
    assert(p1.skip(1) =~= scope.push('/') + pkg);
    assert(seq![scope] + seq![pkg] =~= seq![scope, pkg]);
    assert(scope.push('-') + pkg =~= scope + seq!['-'] + pkg);
    let p2 = seq!['@'] + scope.push('/') + pkg.push('/') + leaf;
    assert(p2[0] == '@');
    assert(p2[1] == scope[0]);
    assert(p2.last() == leaf.last());
    assert(p2.skip(1) =~= scope.push('/') + (pkg.push('/') + leaf));
    assert(seq![pkg] + seq![leaf] =~= seq![pkg, leaf]);
    assert(seq![scope] + seq![pkg, leaf] =~= seq![scope, pkg, leaf]);
}

/// A bare import with no source directory after its first segment takes
/// its prefix from the first segment and its leaf from the last.
pub proof fn lemma_bare_name_without_source_dir(
    path: Seq<char>,
    filename: Option<Seq<char>>,
    dirs: Option<Seq<Seq<char>>>,
)
    requires
        path.len() > 0,
        path[0] != '.',
        path[0] != '/',
        path[0] != '@',
        path.last() != '/',
        split_on(path, '/').len() >= 2,
        split_on(path, '/')[0].len() > 0,
        forall|j: int|
            1 <= j < split_on(path, '/').len() ==> !crate::naming::active_dirs(dirs).contains(
                #[trigger] split_on(path, '/')[j],
            ),
    ensures
        chunk_name(path, filename, dirs) == Some(
            camel_case(split_on(path, '/')[0]).push('.') + strip_ext(split_on(path, '/').last()),
        ),
{
    let segs = split_on(path, '/');
    let rest = segs.drop_first();
    lemma_last_source_dir_index(rest, dirs);
    if let Some(m) = crate::naming::last_source_dir_index(rest, dirs) {
        assert(rest[m] == segs[m + 1]);
        assert(!crate::naming::active_dirs(dirs).contains(segs[m + 1]));
    }
}

/// Resolving a sequence of parts one after another is resolving the first
/// ones, then the rest from there.
pub proof fn lemma_apply_parts_concat(
    stack: Seq<Seq<char>>,
    first: Seq<Seq<char>>,
    rest: Seq<Seq<char>>,
)
    ensures
        apply_parts(stack, first + rest) == apply_parts(apply_parts(stack, first), rest),
    decreases rest.len(),
{
    if rest.len() == 0 {
        assert(first + rest =~= first);
    } else {
        assert((first + rest).drop_last() =~= first + rest.drop_last());
        assert((first + rest).last() == rest.last());
        lemma_apply_parts_concat(stack, first, rest.drop_last());
    }
}

/// A leading `./` changes nothing in the resolution of an import, and a
/// leading `../` resolves the rest from the parent of the importing file's
/// directory (staying at the top when there is none).
pub proof fn lemma_resolution_of_leading_dot_segments(filename: Seq<char>, rest: Seq<char>)
    ensures
        resolved_segments(filename, seq!['.', '/'] + rest) == resolved_segments(filename, rest),
        ({
            let base = nonempty_pieces(split_on(dir_part(filename), '/'));
            let parent = if base.len() > 0 {
                base.drop_last()
            } else {
                base
            };
            resolved_segments(filename, seq!['.', '.', '/'] + rest) == apply_parts(
                parent,
                split_on(rest, '/'),
            )
        }),
{
    let base = nonempty_pieces(split_on(dir_part(filename), '/'));
    let dot = seq!['.'];
    let dotdot = seq!['.', '.'];
    lemma_split_without_separator(dot, '/');
    lemma_split_without_separator(dotdot, '/');
    assert(seq!['.', '/'] + rest =~= dot.push('/') + rest);
    assert(seq!['.', '.', '/'] + rest =~= dotdot.push('/') + rest);
    crate::text::lemma_split_concat(dot, rest, '/');
    crate::text::lemma_split_concat(dotdot, rest, '/');
    lemma_apply_parts_concat(base, seq![dot], split_on(rest, '/'));
    lemma_apply_parts_concat(base, seq![dotdot], split_on(rest, '/'));
    assert(seq![dot].drop_last() =~= Seq::<Seq<char>>::empty());
    assert(seq![dotdot].drop_last() =~= Seq::<Seq<char>>::empty());
    assert(apply_parts(base, Seq::<Seq<char>>::empty()) == base);
    assert(seq![dot].last() == dot);
    assert(apply_parts(base, seq![dot]) == apply_part(base, dot));
    assert(apply_parts(base, seq![dotdot]) == apply_part(base, dotdot));
}

/// Lowercase ASCII letters become the uppercase letter 32 code points
/// below; every other character is left as it is.
pub proof fn lemma_ascii_upper(c: char)
    ensures
        'a' <= c <= 'z' ==> 'A' <= ascii_upper(c) <= 'Z' && ascii_upper(c) as int == c as int - 32,
        !('a' <= c <= 'z') ==> ascii_upper(c) == c,
{
}

/// Two separator-free words joined by `-` or `_` camelCase to the first
/// word followed by the second with its first character uppercased.
pub proof fn lemma_camel_case_joins_words(a: Seq<char>, sep: char, b: Seq<char>)
    requires
        is_word_separator(sep),
        b.len() > 0,
        forall|i: int| 0 <= i < a.len() ==> !is_word_separator(#[trigger] a[i]),
        forall|i: int| 0 <= i < b.len() ==> !is_word_separator(#[trigger] b[i]),
    ensures
        camel_case(a.push(sep) + b) == a.push(ascii_upper(b[0])) + b.drop_first(),
    decreases b.len(),
{
    let s = a.push(sep) + b;
    lemma_camel_case_keeps_plain_names(a);
    assert(a.push(sep).drop_last() =~= a);
    assert(a.push(sep).last() == sep);
    assert(camel_case(a.push(sep)) == a);
    if b.len() == 1 {
        assert(s.drop_last() =~= a.push(sep));
        assert(s.last() == b[0]);
        assert(b.drop_first() =~= Seq::<char>::empty());
        assert(a.push(ascii_upper(b[0])) + b.drop_first() =~= a.push(ascii_upper(b[0])));
    } else {
        let bi = b.drop_last();
        assert(forall|i: int| 0 <= i < bi.len() ==> bi[i] == b[i]);
        lemma_camel_case_joins_words(a, sep, bi);
        assert(s.drop_last() =~= a.push(sep) + bi);
        assert(s.last() == b.last());
        assert(s.drop_last().last() == bi.last());
        assert(bi.last() == b[b.len() - 2]);
        assert(!is_word_separator(b[b.len() - 1]));
        assert(bi[0] == b[0]);
        assert(!is_word_separator(s.drop_last().last()));
        assert(camel_case(s) == camel_case(s.drop_last()).push(b.last()));
        assert((a.push(ascii_upper(b[0])) + bi.drop_first()).push(b.last()) =~= a.push(
            ascii_upper(b[0]),
        ) + b.drop_first());
    }
}

/// Line comments are always kept; a block comment is dropped when its text
/// holds `webpackChunkName` or `webpackMode` anywhere, and kept when it
/// holds neither.
pub proof fn lemma_which_comments_are_kept(
    text: Seq<char>,
    before: Seq<char>,
    after: Seq<char>,
    span: Option<(u32, u32)>,
)
    ensures
        kept_comments(seq![(crate::comments::CommentKind::Line, text, span)]) == seq![
            (crate::comments::CommentKind::Line, text, span),
        ],
        kept_comments(
            seq![(crate::comments::CommentKind::Block, before + "webpackChunkName"@ + after, span)],
        ).len() == 0,
        kept_comments(
            seq![(crate::comments::CommentKind::Block, before + "webpackMode"@ + after, span)],
        ).len() == 0,
        (forall|i: int|
            0 <= i && i + 16 <= text.len() ==> #[trigger] text.subrange(i, i + 16)
                != "webpackChunkName"@) && (forall|i: int|
            0 <= i && i + 11 <= text.len() ==> #[trigger] text.subrange(i, i + 11) != "webpackMode"@)
            ==> kept_comments(seq![(crate::comments::CommentKind::Block, text, span)]) == seq![
            (crate::comments::CommentKind::Block, text, span),
        ],
{
    reveal_strlit("webpackChunkName");
    reveal_strlit("webpackMode");
    let line = seq![(crate::comments::CommentKind::Line, text, span)];
    assert(line.drop_last() =~= Seq::<CommentView>::empty());
    assert(kept_comments(Seq::<CommentView>::empty()) =~= Seq::<CommentView>::empty());
    assert(!is_stale_magic(line.last()));
    assert(kept_comments(line) == kept_comments(line.drop_last()).push(line.last()));
    assert(Seq::<CommentView>::empty().push(line.last()) =~= line);
    let t1 = before + "webpackChunkName"@ + after;
    assert(t1.subrange(before.len() as int, before.len() + chunk_name_key().len() as int) =~= chunk_name_key());
    assert(contains_run(t1, chunk_name_key()));
    let c1 = seq![(crate::comments::CommentKind::Block, t1, span)];
    assert(c1.last() == (crate::comments::CommentKind::Block, t1, span));
    assert(is_stale_magic(c1.last()));
    assert(c1.drop_last() =~= Seq::<CommentView>::empty());
    let t2 = before + "webpackMode"@ + after;
    assert(t2.subrange(before.len() as int, before.len() + mode_key().len() as int) =~= mode_key());
    let c2 = seq![(crate::comments::CommentKind::Block, t2, span)];
    assert(is_stale_magic(c2.last()));
    assert(c2.drop_last() =~= Seq::<CommentView>::empty());
    let c3 = seq![(crate::comments::CommentKind::Block, text, span)];
    assert(c3.drop_last() =~= Seq::<CommentView>::empty());
    assert(Seq::<CommentView>::empty().push(c3.last()) =~= c3);
}

} // verus!

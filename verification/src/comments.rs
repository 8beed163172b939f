//! Rewriting of the leading comments of an import specifier: stale
//! `webpackChunkName` / `webpackMode` block comments are dropped, every other
//! comment is kept in order, and fresh `webpackMode: "lazy-once"` and
//! `webpackChunkName` comments follow them.

use vstd::prelude::*;
use crate::text::{chars_of, contains_run, range_eq};

verus! {

/// `//` line comments and `/* */` block comments.
#[derive(Debug, Clone, Copy, PartialEq, Eq, Structural)]
pub enum CommentKind {
    Line,
    Block,
}

/// A leading comment: its kind, its text (without delimiters), and its
/// source position (`None` for a comment the plugin creates).
#[derive(Debug, PartialEq, Eq)]
pub struct LeadingComment {
    pub kind: CommentKind,
    pub text: String,
    pub span: Option<(u32, u32)>,
}

/// What a comment is, as a value: kind, text, position.
pub type CommentView = (CommentKind, Seq<char>, Option<(u32, u32)>);

impl View for LeadingComment {
    type V = CommentView;

    open spec fn view(&self) -> CommentView {
        (self.kind, self.text@, self.span)
    }
}

/// The views of a list of comments.
pub open spec fn comment_views(cs: Seq<LeadingComment>) -> Seq<CommentView> {
    cs.map_values(|c: LeadingComment| c@)
}

pub open spec fn chunk_name_key() -> Seq<char> {
    "webpackChunkName"@
}

pub open spec fn mode_key() -> Seq<char> {
    "webpackMode"@
}

/// A block comment that mentions `webpackChunkName` or `webpackMode`.
pub open spec fn is_stale_magic(c: CommentView) -> bool {
    c.0 == CommentKind::Block && (contains_run(c.1, chunk_name_key()) || contains_run(
        c.1,
        mode_key(),
    ))
}

/// The comments of `cs` that are not stale magic comments, in order.
pub open spec fn kept_comments(cs: Seq<CommentView>) -> Seq<CommentView>
    decreases cs.len(),
{
    if cs.len() == 0 {
        Seq::<CommentView>::empty()
    } else {
        let r = kept_comments(cs.drop_last());
        if is_stale_magic(cs.last()) {
            r
        } else {
            r.push(cs.last())
        }
    }
}

/// Text of the generated mode comment: ` webpackMode: "lazy-once" `.
pub open spec fn mode_comment_text() -> Seq<char> {
    " webpackMode: \"lazy-once\" "@
}

/// Text of the generated name comment: ` webpackChunkName: "<name>" `.
pub open spec fn chunk_name_comment_text(name: Seq<char>) -> Seq<char> {
    " webpackChunkName: \""@ + name + "\" "@
}

pub open spec fn mode_comment_view() -> CommentView {
    (CommentKind::Block, mode_comment_text(), None)
}

pub open spec fn chunk_name_comment_view(name: Seq<char>) -> CommentView {
    (CommentKind::Block, chunk_name_comment_text(name), None)
}

/// The leading comments after the chunk comments for `name` are put in
/// place: the kept comments, then the mode comment, then the name comment.
pub open spec fn rewritten_comments(cs: Seq<CommentView>, name: Seq<char>) -> Seq<CommentView> {
    kept_comments(cs) + seq![mode_comment_view(), chunk_name_comment_view(name)]
}

/// `true` exactly when `needle` occurs in `hay`.
pub fn contains_text(hay: &str, needle: &str) -> (b: bool)
    ensures
        b == contains_run(hay@, needle@),
{
    let h = chars_of(hay);
    let n = chars_of(needle);
    if n.len() > h.len() {
        return false;
    }
    if n.len() == 0 {
        assert(contains_run(hay@, needle@)) by {
            assert(hay@.subrange(0, 0 + needle@.len() as int) =~= needle@);
        }
        return true;
    }
    let last = h.len() - n.len();
    let mut i: usize = 0;
    while i <= last
        invariant
            last == h.len() - n.len(),
            0 < n.len() <= h.len(),
            h@ == hay@,
            n@ == needle@,
            forall|j: int| 0 <= j < i ==> #[trigger] h@.subrange(j, j + n.len()) != n@,
        decreases last + 1 - i,
    {
        if range_eq(&h, i, i + n.len(), &n) {
            return true;
        }
        i = i + 1;
    }
    false
}

/// Whether `c` is a block comment that mentions `webpackChunkName` or
/// `webpackMode` (such comments are replaced).
pub fn is_stale_magic_comment(c: &LeadingComment) -> (b: bool)
    ensures
        b == is_stale_magic(c@),
{
    match c.kind {
        CommentKind::Block => contains_text(c.text.as_str(), "webpackChunkName") || contains_text(
            c.text.as_str(),
            "webpackMode",
        ),
        CommentKind::Line => false,
    }
}

/// The generated ` webpackMode: "lazy-once" ` block comment.
pub fn webpack_mode_comment() -> (c: LeadingComment)
    ensures
        c@ == mode_comment_view(),
{
    LeadingComment {
        kind: CommentKind::Block,
        text: String::from_str(" webpackMode: \"lazy-once\" "),
        span: None,
    }
}

/// The generated ` webpackChunkName: "<name>" ` block comment.
pub fn chunk_name_comment(chunk_name: &str) -> (c: LeadingComment)
    ensures
        c@ == chunk_name_comment_view(chunk_name@),
{
    let mut text = String::from_str(" webpackChunkName: \"");
    text.append(chunk_name);
    text.append("\" ");
    LeadingComment { kind: CommentKind::Block, text, span: None }
}

/// Drops the stale `webpackChunkName` / `webpackMode` block comments from
/// `existing`, keeps every other comment in order, then appends fresh
/// `webpackMode: "lazy-once"` and `webpackChunkName` comments.
pub fn replace_chunk_comments(existing: Vec<LeadingComment>, chunk_name: &str) -> (r: Vec<
    LeadingComment,
>)
    ensures
        comment_views(r@) == rewritten_comments(comment_views(existing@), chunk_name@),
{
    let ghost all = comment_views(existing@);
    let mut rest = existing;
    let mut out: Vec<LeadingComment> = Vec::new();
    let mut taken: usize = 0;
    let total = rest.len();
    while rest.len() > 0
        invariant
            total == all.len(),
            taken + rest.len() == total,
            comment_views(rest@) == all.skip(taken as int),
            comment_views(out@) == kept_comments(all.take(taken as int)),
        decreases rest.len(),
    {
        let ghost before_rest = comment_views(rest@);
        let ghost before_out = comment_views(out@);
        assert(before_rest[0] == all[taken as int]);
        let ghost old_rest = rest@;
        let c = rest.remove(0);
        assert(rest@ =~= old_rest.subrange(1, old_rest.len() as int));
        assert(c@ == before_rest[0]);
        assert(all.take(taken + 1).drop_last() =~= all.take(taken as int));
        assert(all.take(taken + 1).last() == all[taken as int]);
        if !is_stale_magic_comment(&c) {
            out.push(c);
            assert(comment_views(out@) =~= before_out.push(all[taken as int]));
        }
        assert forall|j: int| 0 <= j < rest@.len() implies #[trigger] comment_views(rest@)[j]
            == all.skip(taken + 1)[j] by {
            assert(rest@[j] == old_rest[j + 1]);
            assert(before_rest[j + 1] == all.skip(taken as int)[j + 1]);
        }
        taken = taken + 1;
        assert(comment_views(rest@) =~= all.skip(taken as int));
    }
    assert(all.take(taken as int) =~= all);
    out.push(webpack_mode_comment());
    out.push(chunk_name_comment(chunk_name));
    assert(comment_views(out@) =~= rewritten_comments(all, chunk_name@));
    out
}

} // verus!

use swc_plugin_webpack_chunk_names::comments::{
    chunk_name_comment, contains_text, is_stale_magic_comment, replace_chunk_comments,
    webpack_mode_comment, CommentKind, LeadingComment,
};

fn block(text: &str) -> LeadingComment {
    LeadingComment { kind: CommentKind::Block, text: text.to_string(), span: Some((1, 2)) }
}

fn texts(cs: &[LeadingComment]) -> Vec<String> {
    cs.iter().map(|c| c.text.clone()).collect()
}

#[test]
fn generated_comment_texts() {
    assert_eq!(webpack_mode_comment().text, r#" webpackMode: "lazy-once" "#);
    assert_eq!(chunk_name_comment("lodash.fp").text, r#" webpackChunkName: "lodash.fp" "#);
    assert_eq!(webpack_mode_comment().kind, CommentKind::Block);
    assert_eq!(chunk_name_comment("x").span, None);
}

#[test]
fn replaces_old_webpack_chunk_comment() {
    let out = replace_chunk_comments(vec![block(r#" webpackChunkName: "old" "#)], "lodash.fp");
    assert_eq!(
        texts(&out),
        vec![r#" webpackMode: "lazy-once" "#.to_string(), r#" webpackChunkName: "lodash.fp" "#.to_string()]
    );
}

#[test]
fn preserves_unrelated_leading_comments() {
    let out = replace_chunk_comments(
        vec![block(" a "), block(" b "), block(r#" webpackChunkName: "old" "#)],
        "lodash.fp",
    );
    assert_eq!(out.len(), 4);
    assert_eq!(out[0], block(" a "));
    assert_eq!(out[1], block(" b "));
    assert_eq!(out[2].text, r#" webpackMode: "lazy-once" "#);
    assert_eq!(out[3].text, r#" webpackChunkName: "lodash.fp" "#);
}

#[test]
fn replaces_multiline_mode_and_chunk_comment() {
    let out = replace_chunk_comments(
        vec![block("\nwebpackMode: \"eager\"\nwebpackChunkName: \"gone\"\n")],
        "lodash",
    );
    assert_eq!(
        texts(&out),
        vec![r#" webpackMode: "lazy-once" "#.to_string(), r#" webpackChunkName: "lodash" "#.to_string()]
    );
}

#[test]
fn keeps_other_webpack_magic_comments() {
    let out = replace_chunk_comments(
        vec![block(" webpackPrefetch: true "), block(r#" webpackChunkName: "stale" "#)],
        "react",
    );
    assert_eq!(
        texts(&out),
        vec![
            " webpackPrefetch: true ".to_string(),
            r#" webpackMode: "lazy-once" "#.to_string(),
            r#" webpackChunkName: "react" "#.to_string()
        ]
    );
}

#[test]
fn line_comments_mentioning_magic_words_are_kept() {
    let line = LeadingComment {
        kind: CommentKind::Line,
        text: " webpackChunkName: \"x\"".to_string(),
        span: None,
    };
    assert!(!is_stale_magic_comment(&line));
    let out = replace_chunk_comments(vec![line], "y");
    assert_eq!(out.len(), 3);
    assert_eq!(out[0].kind, CommentKind::Line);
}

#[test]
fn empty_block_comment_is_kept() {
    let out = replace_chunk_comments(vec![block("")], "lodash.get");
    assert_eq!(out.len(), 3);
    assert_eq!(out[0], block(""));
}

#[test]
fn rewriting_twice_gives_the_same_comments() {
    let once = replace_chunk_comments(vec![block(" keep "), block(" webpackMode: \"eager\" ")], "n");
    let once_texts = texts(&once);
    let twice = replace_chunk_comments(once, "n");
    assert_eq!(texts(&twice), once_texts);
}

#[test]
fn contains_text_finds_runs() {
    assert!(contains_text("abc", ""));
    assert!(contains_text("xxwebpackModeyy", "webpackMode"));
    assert!(!contains_text("webpackMod", "webpackMode"));
    assert!(!contains_text("", "a"));
}

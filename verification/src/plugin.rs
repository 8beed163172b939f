//! The plugin's decisions: which calls are dynamic imports, what is done
//! with each one, which source directories the configuration selects, and
//! how the importing file's name is made absolute.

use vstd::prelude::*;
use crate::naming::{chunk_name, dirs_view, generate_chunk_name, opt_view};
use crate::template::{cooked_view, flatten_template, flatten_tpl, TemplateLiteral};
use crate::text::{chars_of, push_chars, push_range, string_push};

verus! {

/// The callee of a call expression, as far as import detection reads it.
pub enum Callee {
    /// The `import` keyword of a native dynamic import.
    ImportKeyword,
    /// A plain identifier, by name.
    Identifier(String),
    /// Anything else (member expressions, `super`, …).
    Other,
}

/// A callee that is the plain identifier `import` (what some bundlers emit
/// once the native `import()` has been down-leveled to a function call).
pub open spec fn is_fallback_import_spec(callee: Callee) -> bool {
    callee matches Callee::Identifier(name) && name@ == "import"@
}

/// A callee that starts a dynamic import: the `import` keyword or the
/// fallback identifier.
pub open spec fn is_dynamic_import_spec(callee: Callee) -> bool {
    callee is ImportKeyword || is_fallback_import_spec(callee)
}

/// Whether `callee` is the plain identifier `import`.
pub fn is_fallback_import_call(callee: &Callee) -> (b: bool)
    ensures
        b == is_fallback_import_spec(*callee),
{
    match callee {
        Callee::Identifier(name) => {
            let import_word = String::from_str("import");
            *name == import_word
        },
        _ => false,
    }
}

/// Whether `callee` starts a dynamic import.
pub fn is_dynamic_import(callee: &Callee) -> (b: bool)
    ensures
        b == is_dynamic_import_spec(*callee),
{
    match callee {
        Callee::ImportKeyword => true,
        _ => is_fallback_import_call(callee),
    }
}

/// Where a literal argument starts: its own position, and the start of the
/// whole argument expression for when the literal's own span is synthetic
/// (the dummy or placeholder span).
#[derive(Clone, Copy)]
pub struct ArgumentSpan {
    pub lo: u32,
    pub synthetic: bool,
    pub expr_lo: u32,
}

/// The position at which the magic comments are attached.
pub open spec fn anchor_of(span: ArgumentSpan) -> u32 {
    if span.synthetic {
        span.expr_lo
    } else {
        span.lo
    }
}

/// The first argument of a dynamic import.
pub enum ImportArgument {
    /// A string literal, by its value.
    StringLiteral { value: String, span: ArgumentSpan },
    /// A template literal.
    Template { template: TemplateLiteral, span: ArgumentSpan },
    /// Any other expression (identifiers, member expressions, calls, …).
    Unsupported,
}

/// A call expression as import handling reads it.
pub struct ImportCall {
    pub callee: Callee,
    pub first_argument: Option<ImportArgument>,
}

/// Why a dynamic import was left unannotated with a warning.
#[derive(Debug, Clone, Copy, PartialEq, Eq, Structural)]
pub enum ImportWarning {
    /// A template literal could not be flattened into a path.
    TemplateNotFlattened,
    /// The argument is neither a string nor a template literal.
    UnsupportedArgument,
    /// No chunk name could be made from the path.
    NoChunkName,
}

/// What is done with one call expression.
pub enum ImportAction {
    /// Not a dynamic import, or one without arguments: nothing happens.
    Untouched,
    /// The chunk comments for `chunk_name` are attached at `position`.
    Annotate { position: u32, chunk_name: String },
    /// The import is left as it is and a warning is emitted.
    Warn(ImportWarning),
}

/// The planned outcome for a call: `Ok((position, name))` to annotate,
/// `Err(Some(w))` to warn, `Err(None)` to leave it untouched.
pub open spec fn import_plan(
    call: ImportCall,
    filename: Option<Seq<char>>,
    dirs: Option<Seq<Seq<char>>>,
) -> Result<(u32, Seq<char>), Option<ImportWarning>> {
    if !is_dynamic_import_spec(call.callee) {
        Err(None)
    } else {
        match call.first_argument {
            None => Err(None),
            Some(ImportArgument::Unsupported) => Err(Some(ImportWarning::UnsupportedArgument)),
            Some(ImportArgument::StringLiteral { value, span }) => match chunk_name(
                value@,
                filename,
                dirs,
            ) {
                Some(n) => Ok((anchor_of(span), n)),
                None => Err(Some(ImportWarning::NoChunkName)),
            },
            Some(ImportArgument::Template { template, span }) => match flatten_template(
                cooked_view(template.cooked@),
                template.expr_count as nat,
            ) {
                Some(p) => match chunk_name(p, filename, dirs) {
                    Some(n) => Ok((anchor_of(span), n)),
                    None => Err(Some(ImportWarning::NoChunkName)),
                },
                None => Err(Some(ImportWarning::TemplateNotFlattened)),
            },
        }
    }
}

/// Decides what happens to one call expression (see [`import_plan`]).
pub fn plan_import_call(call: &ImportCall, filename: Option<&str>, source_dirs: Option<&[String]>) -> (r:
    ImportAction)
    ensures
        match import_plan(*call, opt_view(filename), dirs_view(source_dirs)) {
            Ok((pos, name)) => r matches ImportAction::Annotate { position, chunk_name } && position
                == pos && chunk_name@ == name,
            Err(None) => r is Untouched,
            Err(Some(w)) => r == ImportAction::Warn(w),
        },
{
    if !is_dynamic_import(&call.callee) {
        return ImportAction::Untouched;
    }
    match &call.first_argument {
        None => ImportAction::Untouched,
        Some(ImportArgument::Unsupported) => ImportAction::Warn(ImportWarning::UnsupportedArgument),
        Some(ImportArgument::StringLiteral { value, span }) => {
            match generate_chunk_name(value.as_str(), filename, source_dirs) {
                Some(name) => ImportAction::Annotate {
                    position: if span.synthetic {
                        span.expr_lo
                    } else {
                        span.lo
                    },
                    chunk_name: name,
                },
                None => ImportAction::Warn(ImportWarning::NoChunkName),
            }
        },
        Some(ImportArgument::Template { template, span }) => {
            match flatten_tpl(template) {
                Some(path) => match generate_chunk_name(path.as_str(), filename, source_dirs) {
                    Some(name) => ImportAction::Annotate {
                        position: if span.synthetic {
                            span.expr_lo
                        } else {
                            span.lo
                        },
                        chunk_name: name,
                    },
                    None => ImportAction::Warn(ImportWarning::NoChunkName),
                },
                None => ImportAction::Warn(ImportWarning::TemplateNotFlattened),
            }
        },
    }
}

/// The plugin configuration as it arrived: absent, not parseable, or parsed
/// with an optional `dirs` list.
pub enum PluginConfig {
    Missing,
    Invalid,
    Parsed { dirs: Option<Vec<String>> },
}

/// The custom source directories a configuration selects: a non-empty
/// `dirs` list; every other case falls back to the defaults (`None`).
pub fn source_dirs_from_config(config: PluginConfig) -> (r: Option<Vec<String>>)
    ensures
        match config {
            PluginConfig::Parsed { dirs: Some(d) } => if d.len() > 0 {
                r == Some(d)
            } else {
                r is None
            },
            _ => r is None,
        },
{
    match config {
        PluginConfig::Parsed { dirs: Some(d) } => if d.len() > 0 {
            Some(d)
        } else {
            None
        },
        _ => None,
    }
}

/// `c` without one trailing `/`.
pub open spec fn without_trailing_slash(c: Seq<char>) -> Seq<char> {
    if c.len() > 0 && c.last() == '/' {
        c.drop_last()
    } else {
        c
    }
}

/// `filename` placed under the working directory `cwd` (when known).
pub open spec fn joined_filename(filename: Seq<char>, cwd: Option<Seq<char>>) -> Seq<char> {
    match cwd {
        Some(c) => without_trailing_slash(c).push('/') + filename,
        None => filename,
    }
}

/// An absolute filename stays as it is; any other is placed under `cwd`.
pub open spec fn absolute_filename_spec(filename: Seq<char>, cwd: Option<Seq<char>>) -> Seq<char> {
    if filename.len() > 0 && filename[0] == '/' {
        filename
    } else {
        joined_filename(filename, cwd)
    }
}

/// Joins `filename` to the working directory `cwd` (one trailing `/` of
/// `cwd` is dropped); without a working directory the name is unchanged.
pub fn resolve_filename(filename: &str, cwd: Option<&str>) -> (r: String)
    ensures
        r@ == joined_filename(filename@, opt_view(cwd)),
{
    let fv = chars_of(filename);
    let mut out = String::new();
    match cwd {
        Some(c) => {
            let cv = chars_of(c);
            let end = if cv.len() > 0 && cv[cv.len() - 1] == '/' {
                cv.len() - 1
            } else {
                cv.len()
            };
            push_range(&mut out, &cv, 0, end);
            string_push(&mut out, '/');
            push_chars(&mut out, &fv);
            assert(cv@.subrange(0, end as int) =~= without_trailing_slash(c@));
        },
        None => {
            push_chars(&mut out, &fv);
        },
    }
    assert(out@ =~= joined_filename(filename@, opt_view(cwd)));
    out
}

/// The filename the naming rules use: absolute names as they are, others
/// joined to the working directory.
pub fn absolute_filename(filename: &str, cwd: Option<&str>) -> (r: String)
    ensures
        r@ == absolute_filename_spec(filename@, opt_view(cwd)),
{
    let fv = chars_of(filename);
    if fv.len() > 0 && fv[0] == '/' {
        let mut out = String::new();
        push_chars(&mut out, &fv);
        assert(out@ =~= filename@);
        out
    } else {
        resolve_filename(filename, cwd)
    }
}

} // verus!

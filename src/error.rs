use vstd::prelude::*;

verus! {

#[verifier::external_type_specification]
#[verifier::external_body]
pub struct ExTeraError(tera::Error);

/// Failures of the grouping filter.
#[derive(Debug, PartialEq, Eq, Structural)]
pub enum FilterError {
    /// The filter was invoked without its `groups` argument.
    MissingArgument,
    /// The commit at this index carries no group.
    UngroupedCommit(usize),
}

/// Failures of building or rendering a template.
#[derive(Debug)]
pub enum ChangelogError {
    /// An engine failure without a deeper cause.
    TemplateError(tera::Error),
    /// The template text did not compile; the engine's innermost message.
    TemplateParseError(String),
    /// The compiled template failed while rendering; the engine's innermost
    /// message.
    TemplateRenderError(String),
}

/// Where an engine failure happened.
#[derive(Debug, Clone, Copy, PartialEq, Eq, Structural)]
pub enum Stage {
    /// While compiling the template text.
    Parse,
    /// While rendering a compiled template.
    Render,
}

/// The display text of an engine error's cause, where it has one.
pub uninterp spec fn cause_of(e: tera::Error) -> Option<Seq<char>>;

/// Relies on tera's `std::error::Error::source` for its error type, and on
/// `ToString` of the cause: the display text of the error's cause, if any.
#[verifier::external_body]
fn engine_error_cause(e: &tera::Error) -> (r: Option<String>)
    ensures
        r is Some <==> cause_of(*e) is Some,
        r is Some ==> r->0@ == cause_of(*e)->0,
{
    match std::error::Error::source(e) {
        Some(c) => Some(c.to_string()),
        None => None,
    }
}

/// Translates an engine failure: where it has a cause, that cause's text in
/// the error of the stage; else the engine error itself, wrapped.
pub fn translate_error(stage: Stage, cause: Option<String>, e: tera::Error) -> (r: ChangelogError)
    ensures
        match cause {
            Some(m) => match stage {
                Stage::Parse => r == ChangelogError::TemplateParseError(m),
                Stage::Render => r == ChangelogError::TemplateRenderError(m),
            },
            None => r == ChangelogError::TemplateError(e),
        },
{
    match cause {
        Some(m) => match stage {
            Stage::Parse => ChangelogError::TemplateParseError(m),
            Stage::Render => ChangelogError::TemplateRenderError(m),
        },
        None => ChangelogError::TemplateError(e),
    }
}

/// The error for a template text that did not compile: the cause's text as
/// a parse error, or the engine error itself where it has no cause.
pub fn parse_error(e: tera::Error) -> (r: ChangelogError)
    ensures
        match cause_of(e) {
            Some(m) => r matches ChangelogError::TemplateParseError(t) && t@ == m,
            None => r == ChangelogError::TemplateError(e),
        },
{
    let cause = engine_error_cause(&e);
    translate_error(Stage::Parse, cause, e)
}

/// The error for a compiled template that failed while rendering: the
/// cause's text as a render error, or the engine error itself where it has no
/// cause.
pub fn render_error(e: tera::Error) -> (r: ChangelogError)
    ensures
        match cause_of(e) {
            Some(m) => r matches ChangelogError::TemplateRenderError(t) && t@ == m,
            None => r == ChangelogError::TemplateError(e),
        },
{
    let cause = engine_error_cause(&e);
    translate_error(Stage::Render, cause, e)
}

} // verus!

//! Lint findings, and the two linters that produce them.
use vstd::prelude::*;
use vstd::multiset::Multiset;
use cypher_data::types::Severity as CypherSeverity;
use gram_diagnostics::Severity as GramSeverity;

verus! {

#[derive(PartialEq, Eq, Structural, Clone, Copy, Debug)]
pub enum Severity {
    Error,
    Warning,
    Information,
    Hint,
}

/// A zero-based line and character.
#[derive(PartialEq, Eq, Structural, Clone, Copy, Debug)]
pub struct Position {
    pub line: u32,
    pub character: u32,
}

#[derive(PartialEq, Eq, Structural, Clone, Copy, Debug)]
pub struct Range {
    pub start: Position,
    pub end: Position,
}

/// One finding of a linter.
#[derive(Debug)]
pub struct Diagnostic {
    pub severity: Severity,
    pub rule: String,
    pub message: String,
    pub code: Option<String>,
    pub range: Range,
}

pub struct DiagnosticView {
    pub severity: Severity,
    pub rule: Seq<char>,
    pub message: Seq<char>,
    pub code: Option<Seq<char>>,
    pub range: Range,
}

impl View for Diagnostic {
    type V = DiagnosticView;

    open spec fn view(&self) -> DiagnosticView {
        DiagnosticView {
            severity: self.severity,
            rule: self.rule@,
            message: self.message@,
            code: match self.code {
                Some(c) => Some(c@),
                None => None,
            },
            range: self.range,
        }
    }
}

pub open spec fn diagnostics_view(v: Seq<Diagnostic>) -> Seq<DiagnosticView> {
    v.map_values(|d: Diagnostic| d@)
}

impl Diagnostic {
    /// A copy with the same view.
    pub fn duplicate(&self) -> (r: Diagnostic)
        ensures
            r@ == self@,
    {
        Diagnostic {
            severity: self.severity,
            rule: self.rule.clone(),
            message: self.message.clone(),
            code: match &self.code {
                Some(c) => Some(c.clone()),
                None => None,
            },
            range: self.range,
        }
    }
}

/// What cypher-data's `lint::lint_source` reports for a Cypher source, counted
/// without their order: the order of some findings follows the iteration of a
/// `HashSet`, which differs between processes.
pub uninterp spec fn cypher_lint(source: Seq<char>) -> Multiset<DiagnosticView>;

/// What gram-data's `lint::lint_source` reports for a gram source.
pub uninterp spec fn gram_lint(source: Seq<char>) -> Seq<DiagnosticView>;

/// Lints Cypher with `cypher_data::lint::lint_source` and converts each
/// finding field by field (its `help` is dropped). That function ignores its
/// options, so which findings come back depends on `source` alone; their order
/// does not (unused parameters are reported while walking a `HashSet`), so the
/// contract names them as a multiset and says nothing of their order.
#[verifier::external_body]
pub(crate) fn lint_cypher(source: &str, strict: bool) -> (r: Vec<Diagnostic>)
    ensures
        diagnostics_view(r@).to_multiset() == cypher_lint(source@),
{
    let opts = cypher_data::lint::LintOptions { strict };
    cypher_data::lint::lint_source(source, &opts).into_iter().map(|d| Diagnostic {
        severity: match d.severity {
            CypherSeverity::Error => Severity::Error,
            CypherSeverity::Warning => Severity::Warning,
            CypherSeverity::Information => Severity::Information,
            CypherSeverity::Hint => Severity::Hint,
        },
        rule: d.rule, message: d.message, code: d.code,
        range: Range { start: Position { line: d.range.start.line, character: d.range.start.character },
            end: Position { line: d.range.end.line, character: d.range.end.character } },
    }).collect()
}

/// Lints gram notation with `gram_data::lint::lint_source` and converts each
/// finding field by field (its `help` is dropped). That function ignores its
/// options, so the findings depend on `source` alone; the contract names them.
#[verifier::external_body]
pub(crate) fn lint_gram(source: &str, strict: bool) -> (r: Vec<Diagnostic>)
    ensures
        diagnostics_view(r@) == gram_lint(source@),
{
    let opts = gram_data::lint::LintOptions { strict };
    gram_data::lint::lint_source(source, &opts).into_iter().map(|d| Diagnostic {
        severity: match d.severity {
            GramSeverity::Error => Severity::Error,
            GramSeverity::Warning => Severity::Warning,
            GramSeverity::Information => Severity::Information,
            GramSeverity::Hint => Severity::Hint,
        },
        rule: d.rule, message: d.message, code: d.code,
        range: Range { start: Position { line: d.range.start.line, character: d.range.start.character },
            end: Position { line: d.range.end.line, character: d.range.end.character } },
    }).collect()
}

} // verus!

//! The command line as plain values: what each subcommand was asked to do.
use vstd::prelude::*;

verus! {

/// The whole command line: connection settings and one subcommand.
#[derive(Debug)]
pub struct Cli {
    pub neo4j: Neo4jArgs,
    pub command: Commands,
}

/// Neo4j connection settings, shared by every subcommand. Only the commands
/// that open a connection ask for the password.
#[derive(Debug)]
pub struct Neo4jArgs {
    pub uri: String,
    pub user: String,
    pub password: Option<String>,
}

/// Why the command line cannot be used as given.
#[derive(Debug)]
pub enum CliError {
    /// A command that connects to Neo4j was given no password.
    MissingPassword,
}

impl CliError {
    pub open spec fn spec_message(self) -> Seq<char> {
        match self {
            CliError::MissingPassword => "--password or NEO4J_PASSWORD is required"@,
        }
    }

    /// The text shown for the error.
    pub fn message(&self) -> (r: String)
        ensures
            r@ == self.spec_message(),
    {
        match self {
            CliError::MissingPassword => {
                let s = "--password or NEO4J_PASSWORD is required";
                proof {
                    reveal_strlit("--password or NEO4J_PASSWORD is required");
                }
                s.to_string()
            },
        }
    }
}

impl Neo4jArgs {
    /// The password, or `MissingPassword` when none was given.
    pub fn require_password(&self) -> (r: Result<&str, CliError>)
        ensures
            match self.password {
                Some(p) => r matches Ok(s) && s@ == p@,
                None => r matches Err(CliError::MissingPassword),
            },
    {
        match &self.password {
            Some(p) => Ok(p.as_str()),
            None => Err(CliError::MissingPassword),
        }
    }
}

/// The subcommands.
#[derive(Debug)]
pub enum Commands {
    /// Lint .cypher or .gram files and snippets.
    Lint(LintArgs),
    /// Parse a file and display its syntax tree.
    Parse(ParseArgs),
    /// Execute Cypher statements against Neo4j.
    Query(QueryArgs),
    /// Write .gram files to Neo4j.
    Write(WriteArgs),
    /// Read Neo4j results and save them as .gram.
    Read(ReadArgs),
    /// Host a directory of parameterized .cypher files as MCP tools.
    Mcp(McpArgs),
    /// Render a .gram file as HTML or SVG.
    Render(RenderArgs),
    /// Any other name: run the program `relate-<name>` with the rest.
    External(Vec<String>),
}

/// The language of an inline expression, of standard input or of a snippet.
#[derive(PartialEq, Eq, Structural, Clone, Copy, Debug)]
pub enum Lang {
    Cypher,
    Gram,
}

#[derive(Debug)]
pub struct LintArgs {
    /// Files or directories to lint; standard input when empty.
    pub files: Vec<String>,
    /// An inline expression to lint in place of files.
    pub expr: Option<String>,
    pub lang: Lang,
    pub json: bool,
    /// Warnings count as errors.
    pub strict: bool,
}

#[derive(Debug)]
pub struct ParseArgs {
    pub format: ParseFormat,
    pub files: Vec<String>,
}

#[derive(PartialEq, Eq, Structural, Clone, Copy, Debug)]
pub enum ParseFormat {
    Sexp,
    Json,
}

#[derive(Debug)]
pub struct WriteArgs {
    pub files: Vec<String>,
}

#[derive(Debug)]
pub struct ReadArgs {
    pub query: String,
    pub output: Option<String>,
}

#[derive(Debug)]
pub struct McpArgs {
    pub dir: String,
}

/// The formats a graph renders to.
#[derive(PartialEq, Eq, Structural, Clone, Copy, Debug)]
pub enum OutputFormat {
    Html,
    Svg,
}

#[derive(Debug)]
pub struct RenderArgs {
    /// The .gram file to render.
    pub file: String,
    /// Where to write; next to `file` when absent.
    pub output: Option<String>,
    pub format: OutputFormat,
    pub json: bool,
    pub open: bool,
}

#[derive(Debug)]
pub struct QueryArgs {
    /// A .cypher path, a bare query name, or a `file/stmt` address.
    pub query: Option<String>,
    /// A Cypher map literal of named parameters.
    pub params_map: Option<String>,
    /// Inline statements.
    pub expr: Vec<String>,
    /// `NAME=VALUE` parameters.
    pub param: Vec<String>,
    /// A JSON file of named parameters.
    pub params: Option<String>,
    pub write: bool,
    pub list: bool,
    pub describe: bool,
    pub cypher_dir: String,
    pub apply: Option<String>,
    pub batch: Option<usize>,
    pub atomic: bool,
    pub json: bool,
}

} // verus!

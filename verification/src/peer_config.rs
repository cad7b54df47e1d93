//! The peers a client starts with, from a configuration whose lines read
//! `name|host`. A host is resolved to an address; a host that does not
//! resolve as it is written is looked up again at the default port. Looking
//! up is the runner's work: it asks `next_to_resolve` which host to resolve,
//! `first_lookup` and `after_lookup` which lookup to make, and hands every
//! outcome back.
use vstd::prelude::*;

use crate::addr::{PeerAddr, DEFAULT_PORT};
use crate::config_text::{ConfigLine, ConfigLines, UnsplitLine};
use crate::text::{debug_quoted, debug_string, decimal, io_error_text, push_decimal};
use vstd::string::StringExecFns;

verus! {

#[verifier::external_type_specification]
#[verifier::external_body]
pub struct ExIoError(std::io::Error);

/// The peers of a configuration, each with its name, in the order of the lines.
pub type Peers = Vec<(Option<String>, PeerAddr)>;

/// Why a configuration could not be loaded.
#[derive(Debug)]
pub enum LoadConfigError {
    Io(std::io::Error),
    Parsing(ConfigParseError),
}

/// Where and why a line of a configuration is wrong.
#[derive(Debug)]
pub struct ConfigParseError {
    line_no: usize,
    column: usize,
    line: String,
    kind: ConfigParseErrorKind,
}

/// Why a line of a configuration is wrong.
#[derive(Debug)]
pub enum ConfigParseErrorKind {
    /// The line has no `|`.
    MissingColon,
    /// The host is not an address.
    InvalidIp { found: String },
    /// The host could not be resolved.
    FailedToResolve { host: String, error: std::io::Error },
}

/// What resolving a host gave.
#[derive(Debug)]
pub enum Resolution {
    /// The first address it resolved to.
    Resolved(PeerAddr),
    /// The host is no address (the error's kind was `InvalidInput`).
    InvalidInput,
    /// Resolving failed otherwise.
    Failed(std::io::Error),
}

impl ConfigParseError {
    pub closed spec fn spec_line_no(&self) -> usize {
        self.line_no
    }

    pub closed spec fn spec_column(&self) -> usize {
        self.column
    }

    pub closed spec fn spec_line(&self) -> String {
        self.line
    }

    pub closed spec fn spec_kind(&self) -> ConfigParseErrorKind {
        self.kind
    }

    /// The error is at `line_no` and `column` of `line`, for `kind`.
    pub open spec fn spec_is(
        &self,
        line_no: usize,
        column: usize,
        line: String,
        kind: ConfigParseErrorKind,
    ) -> bool {
        &&& self.spec_line_no() == line_no
        &&& self.spec_column() == column
        &&& self.spec_line() == line
        &&& self.spec_kind() == kind
    }

    /// The error is that of a line without a `|`.
    pub open spec fn spec_is_missing_colon(&self, u: UnsplitLine) -> bool {
        self.spec_is(u.line_no, u.column, u.line, ConfigParseErrorKind::MissingColon)
    }

    /// The line, counted from `0`.
    pub fn line_no(&self) -> (r: usize)
        ensures
            r == self.spec_line_no(),
    {
        self.line_no
    }

    /// The column the error points at.
    pub fn column(&self) -> (r: usize)
        ensures
            r == self.spec_column(),
    {
        self.column
    }

    /// The line, trimmed.
    pub fn line(&self) -> (r: &String)
        ensures
            *r == self.spec_line(),
    {
        &self.line
    }

    /// Why the line is wrong.
    pub fn kind(&self) -> (r: &ConfigParseErrorKind)
        ensures
            *r == self.spec_kind(),
    {
        &self.kind
    }

    /// The line as shown to a reader, who counts from `1`.
    pub fn shown_line_no(&self) -> (r: usize)
        requires
            self.spec_line_no() < usize::MAX,
        ensures
            r == self.spec_line_no() + 1,
    {
        self.line_no + 1
    }

    /// The error as a reader sees it: where, counting lines from `1`, why,
    /// the line, and a caret under the column.
    pub fn message(&self) -> (r: String)
        requires
            self.spec_line_no() < usize::MAX,
        ensures
            error_text(
                r@,
                (self.spec_line_no() + 1) as nat,
                self.spec_column(),
                self.spec_line()@,
                self.spec_kind(),
            ),
    {
        let kind = self.kind.text();
        error_message(self.line_no + 1, self.column, &self.line, &kind)
    }

    /// The mark under the line: `column` spaces and a caret.
    pub fn caret(&self) -> (r: String)
        ensures
            r@ == Seq::new(self.spec_column() as nat, |i: int| ' ').push('^'),
    {
        caret_line(self.column)
    }
}

/// Whether `t` is how a reader is told why a line is wrong. The text of an
/// I/O error is left open.
pub open spec fn kind_text(kind: ConfigParseErrorKind, t: Seq<char>) -> bool {
    match kind {
        ConfigParseErrorKind::MissingColon => t == "missing colon"@,
        ConfigParseErrorKind::InvalidIp { found } => t == "invalid ip, found "@ + debug_quoted(
            found@,
        ),
        ConfigParseErrorKind::FailedToResolve { host, .. } => exists|e: Seq<char>|
            t == "failed to resolve host "@ + host@ + " because "@ + e,
    }
}

/// Whether `t` is an error message: where the error is, counting lines from
/// `shown_line_no`, why, the line, and a caret under the column.
pub open spec fn error_text(
    t: Seq<char>,
    shown_line_no: nat,
    column: usize,
    line: Seq<char>,
    kind: ConfigParseErrorKind,
) -> bool {
    exists|k: Seq<char>|
        kind_text(kind, k) && t == "config parse error at "@ + decimal(shown_line_no) + ":"@
            + decimal(column as nat) + ": "@ + k + "\n"@ + line + "\n"@ + Seq::new(
            column as nat,
            |i: int| ' ',
        ).push('^')
}

impl ConfigParseErrorKind {
    /// Why a line is wrong, for a reader.
    pub fn text(&self) -> (r: String)
        ensures
            kind_text(*self, r@),
    {
        match self {
            ConfigParseErrorKind::MissingColon => String::from_str("missing colon"),
            ConfigParseErrorKind::InvalidIp { found } => {
                let mut r = String::from_str("invalid ip, found ");
                r.append(debug_string(found).as_str());
                r
            },
            ConfigParseErrorKind::FailedToResolve { host, error } => {
                let mut r = String::from_str("failed to resolve host ");
                r.append(host.as_str());
                r.append(" because ");
                let e = io_error_text(error);
                r.append(e.as_str());
                assert(r@ == "failed to resolve host "@ + host@ + " because "@ + e@);
                r
            },
        }
    }
}

/// The message of an error at `column` of `line`: the position, why, the
/// line, and a caret under the column.
pub fn error_message(
    shown_line_no: usize,
    column: usize,
    line: &String,
    kind_text: &String,
) -> (r: String)
    ensures
        r@ == "config parse error at "@ + decimal(shown_line_no as nat) + ":"@ + decimal(
            column as nat,
        ) + ": "@ + kind_text@ + "\n"@ + line@ + "\n"@ + Seq::new(column as nat, |i: int| ' ').push(
            '^',
        ),
{
    let mut r = String::from_str("config parse error at ");
    push_decimal(&mut r, shown_line_no);
    r.append(":");
    push_decimal(&mut r, column);
    r.append(": ");
    r.append(kind_text.as_str());
    r.append("\n");
    r.append(line.as_str());
    r.append("\n");
    r.append(caret_line(column).as_str());
    r
}

/// `column` spaces and a caret.
pub fn caret_line(column: usize) -> (r: String)
    ensures
        r@ == Seq::new(column as nat, |i: int| ' ').push('^'),
{
    let mut r = String::new();
    let mut i: usize = 0;
    while i < column
        invariant
            i <= column,
            r@ == Seq::new(i as nat, |k: int| ' '),
        decreases column - i,
    {
        r.append(" ");
        proof {
            reveal_strlit(" ");
        }
        i = i + 1;
        assert(r@ =~= Seq::new(i as nat, |k: int| ' '));
    }
    r.append("^");
    proof {
        reveal_strlit("^");
    }
    assert(r@ =~= Seq::new(column as nat, |k: int| ' ').push('^'));
    r
}

/// The error of a line without a `|`: it points at the last character.
pub fn missing_colon(u: UnsplitLine) -> (r: ConfigParseError)
    ensures
        r.spec_is_missing_colon(u),
{
    ConfigParseError {
        line_no: u.line_no,
        column: u.column,
        line: u.line,
        kind: ConfigParseErrorKind::MissingColon,
    }
}

/// Why a line whose host resolved nothing is wrong.
pub open spec fn line_error_kind(line: ConfigLine, outcome: Resolution) -> ConfigParseErrorKind {
    match outcome {
        Resolution::Failed(error) => ConfigParseErrorKind::FailedToResolve { host: line.host, error },
        _ => ConfigParseErrorKind::InvalidIp { found: line.host },
    }
}

/// `e` is the error of a line whose host resolved nothing: it points at the host.
pub open spec fn is_line_error(e: ConfigParseError, line: ConfigLine, outcome: Resolution) -> bool {
    e.spec_is(line.line_no, line.column, line.line, line_error_kind(line, outcome))
}

/// What a line with a resolved host gives: the peer, or the error.
pub open spec fn resolved_line_agrees(
    r: Result<(Option<String>, PeerAddr), ConfigParseError>,
    line: ConfigLine,
    outcome: Resolution,
) -> bool {
    match outcome {
        Resolution::Resolved(addr) => r == Ok::<(Option<String>, PeerAddr), ConfigParseError>(
            (Some(line.name), addr),
        ),
        _ => r matches Err(e) && is_line_error(e, line, outcome),
    }
}

/// The error of a line whose host resolved nothing.
fn unresolved_line(line: ConfigLine, outcome: Resolution) -> (r: ConfigParseError)
    requires
        !(outcome is Resolved),
    ensures
        is_line_error(r, line, outcome),
{
    let kind = match outcome {
        Resolution::Failed(error) => ConfigParseErrorKind::FailedToResolve {
            host: line.host,
            error,
        },
        _ => ConfigParseErrorKind::InvalidIp { found: line.host },
    };
    ConfigParseError { line_no: line.line_no, column: line.column, line: line.line, kind }
}

/// The peer of a line whose host was resolved, or why there is none.
pub fn resolve_line(line: ConfigLine, outcome: Resolution) -> (r: Result<
    (Option<String>, PeerAddr),
    ConfigParseError,
>)
    ensures
        resolved_line_agrees(r, line, outcome),
{
    match outcome {
        Resolution::Resolved(addr) => Ok((Some(line.name), addr)),
        _ => Err(unresolved_line(line, outcome)),
    }
}

/// Where the first outcome that resolved nothing stands, or the number of
/// outcomes if all resolved.
pub open spec fn first_failure(outcomes: Seq<Resolution>) -> int
    decreases outcomes.len(),
{
    if outcomes.len() == 0 {
        0
    } else if !(outcomes[0] is Resolved) {
        0
    } else {
        1 + first_failure(outcomes.drop_first())
    }
}

proof fn lemma_first_failure(outcomes: Seq<Resolution>, i: int)
    requires
        0 <= i <= outcomes.len(),
        forall|j: int| 0 <= j < i ==> #[trigger] outcomes[j] is Resolved,
        i < outcomes.len() ==> !(outcomes[i] is Resolved),
    ensures
        first_failure(outcomes) == i,
    decreases i,
{
    if i > 0 {
        let rest = outcomes.drop_first();
        assert forall|j: int| 0 <= j < i - 1 implies #[trigger] rest[j] is Resolved by {
            assert(rest[j] == outcomes[j + 1]);
        }
        if i < outcomes.len() {
            assert(rest[i - 1] == outcomes[i]);
        }
        assert(outcomes[0] is Resolved);
        lemma_first_failure(rest, i - 1);
    }
}

/// Whether the outcomes so far settle the result: one of them failed, or
/// every line's host was resolved.
pub open spec fn outcomes_settle(lines: Seq<ConfigLine>, outcomes: Seq<Resolution>) -> bool {
    &&& outcomes.len() <= lines.len()
    &&& first_failure(outcomes) < outcomes.len() || outcomes.len() == lines.len()
}

/// Which line's host to resolve next, given the outcomes so far, which are
/// those of the first lines in order; `None` once they settle the result.
pub fn next_to_resolve(lines: &ConfigLines, outcomes: &Vec<Resolution>) -> (r: Option<usize>)
    requires
        outcomes@.len() <= lines.lines@.len(),
    ensures
        r is None <==> outcomes_settle(lines.lines@, outcomes@),
        r matches Some(i) ==> i == outcomes@.len() && i < lines.lines@.len(),
{
    let mut i: usize = 0;
    while i < outcomes.len()
        invariant
            i <= outcomes@.len(),
            outcomes@.len() <= lines.lines@.len(),
            forall|j: int| 0 <= j < i ==> #[trigger] outcomes@[j] is Resolved,
        decreases outcomes@.len() - i,
    {
        match &outcomes[i] {
            Resolution::Resolved(_) => {},
            _ => {
                proof {
                    lemma_first_failure(outcomes@, i as int);
                }
                return None;
            },
        }
        i = i + 1;
    }
    proof {
        lemma_first_failure(outcomes@, i as int);
    }
    if outcomes.len() < lines.lines.len() {
        Some(outcomes.len())
    } else {
        None
    }
}

/// A lookup of a host that the runner makes.
#[derive(Debug)]
pub enum Lookup {
    /// The host as it is written, port included.
    AsWritten { host: String },
    /// The host at `port`.
    AtPort { host: String, port: u16 },
}

/// What follows a lookup: another lookup, or the host's outcome.
#[derive(Debug)]
pub enum ResolveStep {
    Look(Lookup),
    Done(Resolution),
}

/// The first lookup of a host: as it is written.
pub fn first_lookup(host: &str) -> (r: Lookup)
    ensures
        r matches Lookup::AsWritten { host: h } && h@ == host@,
{
    Lookup::AsWritten { host: host.to_string() }
}

/// What follows a lookup and its outcome. A host found as it is written is
/// resolved; one that was not is looked up again at the default port; what
/// that second lookup gives is the host's outcome, whatever it is.
pub fn after_lookup(lookup: Lookup, outcome: Resolution) -> (r: ResolveStep)
    ensures
        match lookup {
            Lookup::AsWritten { host } => match outcome {
                Resolution::Resolved(addr) => r == ResolveStep::Done(Resolution::Resolved(addr)),
                _ => r == ResolveStep::Look(Lookup::AtPort { host, port: DEFAULT_PORT }),
            },
            Lookup::AtPort { .. } => r == ResolveStep::Done(outcome),
        },
{
    match lookup {
        Lookup::AsWritten { host } => match outcome {
            Resolution::Resolved(addr) => ResolveStep::Done(Resolution::Resolved(addr)),
            _ => ResolveStep::Look(Lookup::AtPort { host, port: DEFAULT_PORT }),
        },
        Lookup::AtPort { .. } => ResolveStep::Done(outcome),
    }
}

/// The peers of a configuration once its hosts are resolved: the error of
/// the first line whose host resolved nothing; else the error of the first
/// line without a `|`, if there is one; else every line's peer, in order.
pub fn load(config: ConfigLines, outcomes: Vec<Resolution>) -> (r: Result<Peers, ConfigParseError>)
    requires
        outcomes_settle(config.lines@, outcomes@),
    ensures
        ({
            let f = first_failure(outcomes@);
            if f < outcomes@.len() {
                r matches Err(e) && is_line_error(e, config.lines@[f], outcomes@[f])
            } else if config.unsplit is Some {
                r matches Err(e) && e.spec_is_missing_colon(config.unsplit->0)
            } else {
                &&& r is Ok
                &&& r->Ok_0@.len() == config.lines@.len()
                &&& forall|i: int|
                    0 <= i < config.lines@.len() ==> #[trigger] r->Ok_0@[i] == (
                    Some(config.lines@[i].name),
                    outcomes@[i]->Resolved_0,
                )
            }
        }),
{
    let ConfigLines { lines: mut config_lines, unsplit } = config;
    let mut pending = outcomes;
    let mut i: usize = 0;
    let ghost lines = config_lines@;
    let ghost all = pending@;
    let mut peers: Peers = Vec::new();
    while i < pending.len()
        invariant
            pending@ == all,
            config_lines@ == lines,
            lines == config.lines@,
            all == outcomes@,
            outcomes_settle(lines, all),
            i <= all.len(),
            forall|j: int| 0 <= j < i ==> #[trigger] all[j] is Resolved,
            peers@.len() == i,
            forall|j: int|
                0 <= j < i ==> #[trigger] peers@[j] == (Some(lines[j].name), all[j]->Resolved_0),
        decreases all.len() - i,
    {
        match &pending[i] {
            Resolution::Resolved(addr) => {
                peers.push((Some(config_lines[i].name.clone()), *addr));
            },
            _ => {
                proof {
                    lemma_first_failure(all, i as int);
                }
                let outcome = pending.remove(i);
                let line = config_lines.remove(i);
                return Err(unresolved_line(line, outcome));
            },
        }
        i = i + 1;
    }
    proof {
        lemma_first_failure(all, i as int);
    }
    match unsplit {
        Some(u) => Err(missing_colon(u)),
        None => Ok(peers),
    }
}

} // verus!

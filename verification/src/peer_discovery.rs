//! Named peers from a configuration whose lines read `name|address`, where
//! an address is a socket address, or an IP address at the default port.
use vstd::prelude::*;

use crate::addr::{IpAddress, PeerAddr, DEFAULT_PORT};
use crate::config_text::{
    config_lines, first_unsplit, split_bar, split_config, wrapping_pred, ConfigLine, ConfigLines,
    UnsplitLine,
};
use crate::peer_config::error_message;
use crate::text::{debug_quoted, debug_string, decimal};
use vstd::string::StringExecFns;

verus! {

/// A peer of the configuration.
#[derive(Debug)]
pub struct Peer {
    pub name: String,
    pub addr: PeerAddr,
}

/// The peers of a configuration, in the order of its lines.
#[derive(Debug)]
pub struct Peers {
    pub peers: Vec<Peer>,
}

/// Why a configuration could not be loaded.
#[derive(Debug)]
pub enum LoadConfigError {
    Io(std::io::Error),
    Parsing(ConfigParseError),
}

/// Where and why a line of a configuration is wrong.
#[derive(Debug)]
pub struct ConfigParseError {
    line_no: usize,
    column: usize,
    line: String,
    kind: ConfigParseErrorKind,
}

/// Why a line of a configuration is wrong.
#[derive(Debug)]
pub enum ConfigParseErrorKind {
    /// The line has no `|`.
    MissingColon,
    /// What follows the `|` is no address.
    InvalidIp { found: String },
}

/// How a reader is told why a line is wrong.
pub open spec fn kind_text(kind: ConfigParseErrorKind) -> Seq<char> {
    match kind {
        ConfigParseErrorKind::MissingColon => "missing colon"@,
        ConfigParseErrorKind::InvalidIp { found } => "invalid ip, found "@ + debug_quoted(found@),
    }
}

impl ConfigParseErrorKind {
    /// Why a line is wrong, for a reader.
    pub fn text(&self) -> (r: String)
        ensures
            r@ == kind_text(*self),
    {
        match self {
            ConfigParseErrorKind::MissingColon => String::from_str("missing colon"),
            ConfigParseErrorKind::InvalidIp { found } => {
                let mut r = String::from_str("invalid ip, found ");
                r.append(debug_string(found).as_str());
                r
            },
        }
    }
}

impl ConfigParseError {
    pub closed spec fn spec_line_no(&self) -> usize {
        self.line_no
    }

    pub closed spec fn spec_column(&self) -> usize {
        self.column
    }

    pub closed spec fn spec_line(&self) -> String {
        self.line
    }

    pub closed spec fn spec_kind(&self) -> ConfigParseErrorKind {
        self.kind
    }

    /// The error is at `line_no` and `column` of `line`, for `kind`.
    pub open spec fn spec_is(
        &self,
        line_no: usize,
        column: usize,
        line: String,
        kind: ConfigParseErrorKind,
    ) -> bool {
        &&& self.spec_line_no() == line_no
        &&& self.spec_column() == column
        &&& self.spec_line() == line
        &&& self.spec_kind() == kind
    }

    /// The line, counted from `0`, as it is also shown.
    pub fn line_no(&self) -> (r: usize)
        ensures
            r == self.spec_line_no(),
    {
        self.line_no
    }

    /// The column the error points at.
    pub fn column(&self) -> (r: usize)
        ensures
            r == self.spec_column(),
    {
        self.column
    }

    /// The line, trimmed.
    pub fn line(&self) -> (r: &String)
        ensures
            *r == self.spec_line(),
    {
        &self.line
    }

    /// Why the line is wrong.
    pub fn kind(&self) -> (r: &ConfigParseErrorKind)
        ensures
            *r == self.spec_kind(),
    {
        &self.kind
    }

    /// The error as a reader sees it: where, with the line counted from `0`,
    /// why, the line, and a caret under the column.
    pub fn message(&self) -> (r: String)
        ensures
            r@ == "config parse error at "@ + decimal(self.spec_line_no() as nat) + ":"@ + decimal(
                self.spec_column() as nat,
            ) + ": "@ + kind_text(self.spec_kind()) + "\n"@ + self.spec_line()@ + "\n"@ + Seq::new(
                self.spec_column() as nat,
                |i: int| ' ',
            ).push('^'),
    {
        let kind = self.kind.text();
        error_message(self.line_no, self.column, &self.line, &kind)
    }

    /// The mark under the line: `column` spaces and a caret.
    pub fn caret(&self) -> (r: String)
        ensures
            r@ == Seq::new(self.spec_column() as nat, |i: int| ' ').push('^'),
    {
        crate::peer_config::caret_line(self.column)
    }
}

/// Where the first line whose address could not be read stands, or the
/// number of lines if every address was read.
pub open spec fn first_unread(parsed: Seq<Option<PeerAddr>>) -> int
    decreases parsed.len(),
{
    if parsed.len() == 0 {
        0
    } else if parsed[0] is None {
        0
    } else {
        1 + first_unread(parsed.drop_first())
    }
}

proof fn lemma_first_unread(parsed: Seq<Option<PeerAddr>>, i: int)
    requires
        0 <= i <= parsed.len(),
        forall|j: int| 0 <= j < i ==> #[trigger] parsed[j] is Some,
        i < parsed.len() ==> parsed[i] is None,
    ensures
        first_unread(parsed) == i,
    decreases i,
{
    if i > 0 {
        let rest = parsed.drop_first();
        assert forall|j: int| 0 <= j < i - 1 implies #[trigger] rest[j] is Some by {
            assert(rest[j] == parsed[j + 1]);
        }
        if i < parsed.len() {
            assert(rest[i - 1] == parsed[i]);
        }
        assert(parsed[0] is Some);
        lemma_first_unread(rest, i - 1);
    }
}

proof fn lemma_first_unread_bounds(parsed: Seq<Option<PeerAddr>>)
    ensures
        0 <= first_unread(parsed) <= parsed.len(),
    decreases parsed.len(),
{
    if parsed.len() > 0 {
        lemma_first_unread_bounds(parsed.drop_first());
    }
}

/// The error of a line whose address could not be read: it points at the address.
fn invalid_ip(line: ConfigLine) -> (r: ConfigParseError)
    ensures
        r.spec_is(
            line.line_no,
            line.column,
            line.line,
            ConfigParseErrorKind::InvalidIp { found: line.host },
        ),
{
    ConfigParseError {
        line_no: line.line_no,
        column: line.column,
        line: line.line,
        kind: ConfigParseErrorKind::InvalidIp { found: line.host },
    }
}

/// The error of a line without a `|`: it points at the last character.
fn missing_colon(u: UnsplitLine) -> (r: ConfigParseError)
    ensures
        r.spec_is(u.line_no, u.column, u.line, ConfigParseErrorKind::MissingColon),
{
    ConfigParseError {
        line_no: u.line_no,
        column: u.column,
        line: u.line,
        kind: ConfigParseErrorKind::MissingColon,
    }
}

/// The peers of a configuration, given the address read from each line (or
/// none): the error of the first line whose address could not be read; else
/// the error of the first line without a `|`, if there is one; else every
/// line's peer, in order.
pub fn peers_from_lines(config: ConfigLines, parsed: Vec<Option<PeerAddr>>) -> (r: Result<
    Peers,
    ConfigParseError,
>)
    requires
        parsed@.len() == config.lines@.len(),
    ensures
        ({
            let f = first_unread(parsed@);
            let lines = config.lines@;
            if f < parsed@.len() {
                r matches Err(e) && e.spec_is(
                    lines[f].line_no,
                    lines[f].column,
                    lines[f].line,
                    ConfigParseErrorKind::InvalidIp { found: lines[f].host },
                )
            } else if config.unsplit is Some {
                r matches Err(e) && e.spec_is(
                    config.unsplit->0.line_no,
                    config.unsplit->0.column,
                    config.unsplit->0.line,
                    ConfigParseErrorKind::MissingColon,
                )
            } else {
                &&& r is Ok
                &&& r->Ok_0.peers@.len() == lines.len()
                &&& forall|i: int| 0 <= i < lines.len() ==> #[trigger] parsed@[i] is Some
                &&& forall|i: int|
                    0 <= i < lines.len() ==> #[trigger] r->Ok_0.peers@[i] == (Peer {
                        name: lines[i].name,
                        addr: parsed@[i]->0,
                    })
            }
        }),
{
    let ConfigLines { lines: mut config_lines, unsplit } = config;
    let ghost lines = config_lines@;
    let mut peers: Vec<Peer> = Vec::new();
    let mut i: usize = 0;
    while i < parsed.len()
        invariant
            config_lines@ == lines,
            lines == config.lines@,
            parsed@.len() == lines.len(),
            i <= lines.len(),
            forall|j: int| 0 <= j < i ==> #[trigger] parsed@[j] is Some,
            peers@.len() == i,
            forall|j: int|
                0 <= j < i ==> #[trigger] peers@[j] == (Peer {
                    name: lines[j].name,
                    addr: parsed@[j]->0,
                }),
        decreases lines.len() - i,
    {
        match parsed[i] {
            Some(addr) => {
                peers.push(Peer { name: config_lines[i].name.clone(), addr });
            },
            None => {
                proof {
                    lemma_first_unread(parsed@, i as int);
                }
                let line = config_lines.remove(i);
                return Err(invalid_ip(line));
            },
        }
        i = i + 1;
    }
    proof {
        lemma_first_unread(parsed@, i as int);
    }
    match unsplit {
        Some(u) => Err(missing_colon(u)),
        None => Ok(Peers { peers }),
    }
}

/// The socket address that std reads from a text, if the text is one: a
/// version 4 address and a port, `a.b.c.d:port`, or a version 6 address in
/// brackets and a port, `[v6]:port`.
pub uninterp spec fn parsed_socket_addr(s: Seq<char>) -> Option<PeerAddr>;

/// The IP address that std reads from a text, if the text is one.
pub uninterp spec fn parsed_ip_addr(s: Seq<char>) -> Option<IpAddress>;

/// Reads a socket address with std's `SocketAddr::from_str`. Its result is
/// taken to depend on the text alone and is named, not stated.
#[verifier::external_body]
fn parse_socket_addr(s: &str) -> (r: Option<PeerAddr>)
    ensures
        r == parsed_socket_addr(s@),
{
    match s.parse::<core::net::SocketAddr>() {
        Ok(core::net::SocketAddr::V4(a)) => Some(
            PeerAddr::V4 { ip: u32::from(*a.ip()), port: a.port() },
        ),
        Ok(core::net::SocketAddr::V6(a)) => Some(
            PeerAddr::V6 {
                ip: u128::from(*a.ip()),
                port: a.port(),
                flowinfo: a.flowinfo(),
                scope_id: a.scope_id(),
            },
        ),
        Err(_) => None,
    }
}

/// Reads an IP address with std's `IpAddr::from_str`. Its result is taken to
/// depend on the text alone and is named, not stated.
#[verifier::external_body]
fn parse_ip_addr(s: &str) -> (r: Option<IpAddress>)
    ensures
        r == parsed_ip_addr(s@),
{
    match s.parse::<core::net::IpAddr>() {
        Ok(core::net::IpAddr::V4(a)) => Some(IpAddress::V4(u32::from(a))),
        Ok(core::net::IpAddr::V6(a)) => Some(IpAddress::V6(u128::from(a))),
        Err(_) => None,
    }
}

/// The address a host of a configuration names: the socket address it
/// reads as, or else the IP address it reads as at the default port.
pub open spec fn address_of(host: Seq<char>) -> Option<PeerAddr> {
    match parsed_socket_addr(host) {
        Some(addr) => Some(addr),
        None => match parsed_ip_addr(host) {
            Some(ip) => Some(PeerAddr::spec_new(ip, DEFAULT_PORT)),
            None => None,
        },
    }
}

/// Reads the address a host names: as a socket address, or else as an IP
/// address at the default port.
pub fn read_addr(host: &str) -> (r: Option<PeerAddr>)
    ensures
        r == address_of(host@),
{
    match parse_socket_addr(host) {
        Some(addr) => Some(addr),
        None => match parse_ip_addr(host) {
            Some(ip) => Some(PeerAddr::new(ip, DEFAULT_PORT)),
            None => None,
        },
    }
}

/// The addresses read from the hosts of the trimmed lines `ls`, up to the
/// first line without a `|`.
pub open spec fn line_addresses(ls: Seq<Seq<char>>) -> Seq<Option<PeerAddr>> {
    Seq::new(first_unsplit(ls) as nat, |i: int| address_of(split_bar(ls[i])->Some_0.1))
}

/// The peers of a configuration's text. Its lines are trimmed and split at
/// their first `|` into a name and a host; the first line that has no `|`,
/// or whose host is no address, is the error; else every line's peer, in
/// order, at the address of its host.
pub fn from_config(text: &str) -> (r: Result<Peers, ConfigParseError>)
    ensures
        ({
            let ls = config_lines(text@);
            let k = first_unsplit(ls);
            let f = first_unread(line_addresses(ls));
            if f < k {
                let (name, host) = split_bar(ls[f])->Some_0;
                r matches Err(e) && {
                    &&& e.spec_line_no() == f
                    &&& e.spec_column() == name.len() + 1
                    &&& e.spec_line()@ == ls[f]
                    &&& e.spec_kind() matches ConfigParseErrorKind::InvalidIp { found }
                    &&& found@ == host
                }
            } else if k < ls.len() {
                r matches Err(e) && {
                    &&& e.spec_line_no() == k
                    &&& e.spec_column() == wrapping_pred(ls[k].len())
                    &&& e.spec_line()@ == ls[k]
                    &&& e.spec_kind() is MissingColon
                }
            } else {
                &&& r is Ok
                &&& r->Ok_0.peers@.len() == ls.len()
                &&& forall|i: int|
                    0 <= i < ls.len() ==> {
                        let p = #[trigger] r->Ok_0.peers@[i];
                        &&& p.name@ == split_bar(ls[i])->Some_0.0
                        &&& Some(p.addr) == address_of(split_bar(ls[i])->Some_0.1)
                    }
            }
        }),
{
    let config = split_config(text);
    let ghost ls = config_lines(text@);
    let mut parsed: Vec<Option<PeerAddr>> = Vec::new();
    let mut i: usize = 0;
    while i < config.lines.len()
        invariant
            crate::config_text::config_lines_agree(config, text@),
            ls == config_lines(text@),
            i <= config.lines@.len(),
            parsed@ == line_addresses(ls).take(i as int),
        decreases config.lines@.len() - i,
    {
        let addr = read_addr(config.lines[i].host.as_str());
        parsed.push(addr);
        i = i + 1;
        assert(parsed@ =~= line_addresses(ls).take(i as int));
    }
    assert(parsed@ =~= line_addresses(ls));
    let ghost lines = config.lines@;
    let ghost unsplit = config.unsplit;
    let r = peers_from_lines(config, parsed);
    proof {
        let k = first_unsplit(ls);
        let f = first_unread(parsed@);
        lemma_first_unread_bounds(parsed@);
        if f < k {
            let l = lines[f];
            assert(split_bar(ls[f]) == Some((l.name@, l.host@)));
        } else if k < ls.len() {
            assert(unsplit is Some);
        } else {
            assert forall|i: int| 0 <= i < ls.len() implies {
                let p = #[trigger] r->Ok_0.peers@[i];
                &&& p.name@ == split_bar(ls[i])->Some_0.0
                &&& Some(p.addr) == address_of(split_bar(ls[i])->Some_0.1)
            } by {
                let l = lines[i];
                assert(split_bar(ls[i]) == Some((l.name@, l.host@)));
                assert(parsed@[i] is Some);
            }
        }
    }
    r
}

} // verus!

//! Channel endpoints: the places where services send to or receive from a
//! channel.

use vstd::prelude::*;
use crate::ids::{fresh_id, is_random_id};
use crate::order::{Ranked, lemma_texts_order, str_views, texts_less, texts_lt};
use crate::text::{copy_opt, opt_text, same_text};

verus! {

/// What a channel speaks.
#[derive(Debug, Clone, Copy, PartialEq, Eq, Hash, Structural)]
pub enum Protocol {
    Kafka,
    Mqtt,
    Amqp,
    Grpc,
    Http,
}

/// Which end of a channel an endpoint is.
#[derive(Debug, Clone, Copy, PartialEq, Eq, Hash, Structural)]
pub enum ChannelRole {
    Producer,
    Consumer,
}

/// What an endpoint was found by.
#[derive(Debug, Clone, Copy, PartialEq, Eq, Hash, Structural)]
pub enum EndpointSource {
    TreeSitter,
    Config,
}

impl Protocol {
    /// The name of the protocol.
    pub open spec fn text(self) -> Seq<char> {
        match self {
            Protocol::Kafka => "kafka"@,
            Protocol::Mqtt => "mqtt"@,
            Protocol::Amqp => "amqp"@,
            Protocol::Grpc => "grpc"@,
            Protocol::Http => "http"@,
        }
    }

    /// The name of the protocol.
    pub fn as_str(&self) -> (r: &'static str)
        ensures
            r@ == self.text(),
    {
        match self {
            Protocol::Kafka => "kafka",
            Protocol::Mqtt => "mqtt",
            Protocol::Amqp => "amqp",
            Protocol::Grpc => "grpc",
            Protocol::Http => "http",
        }
    }
}

impl ChannelRole {
    /// The name of the role.
    pub open spec fn text(self) -> Seq<char> {
        match self {
            ChannelRole::Producer => "producer"@,
            ChannelRole::Consumer => "consumer"@,
        }
    }

    /// The name of the role.
    pub fn as_str(&self) -> (r: &'static str)
        ensures
            r@ == self.text(),
    {
        match self {
            ChannelRole::Producer => "producer",
            ChannelRole::Consumer => "consumer",
        }
    }
}

/// One end of a channel, at a place in the code.
#[derive(Debug)]
pub struct ChannelEndpoint {
    pub id: String,
    pub repository_id: String,
    pub file_path: String,
    pub line: u32,
    pub protocol: Protocol,
    pub role: ChannelRole,
    pub channel_raw: String,
    pub channel_normalized: String,
    /// Parts of [`CONFIDENCE_ONE`](crate::claims::CONFIDENCE_ONE).
    pub confidence: i64,
    pub source: EndpointSource,
    /// Whether the channel is known by name.
    pub resolved: bool,
    /// Whether the channel is a pattern.
    pub pattern: bool,
    /// Whether a client library backs the endpoint.
    pub confirmed: bool,
    pub library: Option<String>,
    pub host: Option<String>,
    pub env_var: Option<String>,
    pub method: Option<String>,
    pub enclosing_symbol: Option<String>,
}

/// What an endpoint says.
pub struct EndpointView {
    pub id: Seq<char>,
    pub repository_id: Seq<char>,
    pub file_path: Seq<char>,
    pub line: u32,
    pub protocol: Protocol,
    pub role: ChannelRole,
    pub channel_raw: Seq<char>,
    pub channel_normalized: Seq<char>,
    pub confidence: i64,
    pub source: EndpointSource,
    pub resolved: bool,
    pub pattern: bool,
    pub confirmed: bool,
    pub library: Option<Seq<char>>,
    pub host: Option<Seq<char>>,
    pub env_var: Option<Seq<char>>,
    pub method: Option<Seq<char>>,
    pub enclosing_symbol: Option<Seq<char>>,
}

impl View for ChannelEndpoint {
    type V = EndpointView;

    open spec fn view(&self) -> EndpointView {
        EndpointView {
            id: self.id@,
            repository_id: self.repository_id@,
            file_path: self.file_path@,
            line: self.line,
            protocol: self.protocol,
            role: self.role,
            channel_raw: self.channel_raw@,
            channel_normalized: self.channel_normalized@,
            confidence: self.confidence,
            source: self.source,
            resolved: self.resolved,
            pattern: self.pattern,
            confirmed: self.confirmed,
            library: opt_text(self.library),
            host: opt_text(self.host),
            env_var: opt_text(self.env_var),
            method: opt_text(self.method),
            enclosing_symbol: opt_text(self.enclosing_symbol),
        }
    }
}

/// What endpoints say.
pub open spec fn endpoint_views(s: Seq<ChannelEndpoint>) -> Seq<EndpointView> {
    Seq::new(s.len(), |i: int| s[i]@)
}

/// A resolved endpoint with nothing known beyond its channel.
pub open spec fn bare_endpoint(
    id: Seq<char>,
    repository_id: Seq<char>,
    file_path: Seq<char>,
    line: u32,
    protocol: Protocol,
    role: ChannelRole,
    channel_raw: Seq<char>,
    channel_normalized: Seq<char>,
    confidence: i64,
    source: EndpointSource,
) -> EndpointView {
    EndpointView {
        id,
        repository_id,
        file_path,
        line,
        protocol,
        role,
        channel_raw,
        channel_normalized,
        confidence,
        source,
        resolved: true,
        pattern: false,
        confirmed: false,
        library: None,
        host: None,
        env_var: None,
        method: None,
        enclosing_symbol: None,
    }
}

impl ChannelEndpoint {
    /// A resolved endpoint under a fresh id.
    pub fn new(
        repository_id: String,
        file_path: String,
        line: u32,
        protocol: Protocol,
        role: ChannelRole,
        channel_raw: String,
        channel_normalized: String,
        confidence: i64,
        source: EndpointSource,
    ) -> (r: ChannelEndpoint)
        ensures
            is_random_id(r.id@),
            r@ == bare_endpoint(
                r.id@,
                repository_id@,
                file_path@,
                line,
                protocol,
                role,
                channel_raw@,
                channel_normalized@,
                confidence,
                source,
            ),
    {
        ChannelEndpoint {
            id: fresh_id(),
            repository_id,
            file_path,
            line,
            protocol,
            role,
            channel_raw,
            channel_normalized,
            confidence,
            source,
            resolved: true,
            pattern: false,
            confirmed: false,
            library: None,
            host: None,
            env_var: None,
            method: None,
            enclosing_symbol: None,
        }
    }

    pub fn with_id(self, id: String) -> (r: ChannelEndpoint)
        ensures
            r@ == (EndpointView { id: id@, ..self@ }),
    {
        ChannelEndpoint { id, ..self }
    }

    pub fn with_library(self, library: &str) -> (r: ChannelEndpoint)
        ensures
            r@ == (EndpointView { library: Some(library@), ..self@ }),
    {
        ChannelEndpoint { library: Some(library.to_string()), ..self }
    }

    pub fn with_host(self, host: String) -> (r: ChannelEndpoint)
        ensures
            r@ == (EndpointView { host: Some(host@), ..self@ }),
    {
        ChannelEndpoint { host: Some(host), ..self }
    }

    pub fn with_env_var(self, env_var: String) -> (r: ChannelEndpoint)
        ensures
            r@ == (EndpointView { env_var: Some(env_var@), ..self@ }),
    {
        ChannelEndpoint { env_var: Some(env_var), ..self }
    }

    pub fn with_method(self, method: &str) -> (r: ChannelEndpoint)
        ensures
            r@ == (EndpointView { method: Some(method@), ..self@ }),
    {
        ChannelEndpoint { method: Some(method.to_string()), ..self }
    }

    pub fn with_enclosing_symbol(self, symbol: &str) -> (r: ChannelEndpoint)
        ensures
            r@ == (EndpointView { enclosing_symbol: Some(symbol@), ..self@ }),
    {
        ChannelEndpoint { enclosing_symbol: Some(symbol.to_string()), ..self }
    }

    pub fn with_confidence(self, confidence: i64) -> (r: ChannelEndpoint)
        ensures
            r@ == (EndpointView { confidence, ..self@ }),
    {
        ChannelEndpoint { confidence, ..self }
    }

    /// The endpoint as one that a client library backs.
    pub fn confirmed(self) -> (r: ChannelEndpoint)
        ensures
            r@ == (EndpointView { confirmed: true, ..self@ }),
    {
        ChannelEndpoint { confirmed: true, ..self }
    }

    /// The endpoint as one whose channel is not known by name.
    pub fn unresolved(self) -> (r: ChannelEndpoint)
        ensures
            r@ == (EndpointView { resolved: false, ..self@ }),
    {
        ChannelEndpoint { resolved: false, ..self }
    }

    /// The endpoint as one whose channel is a pattern.
    pub fn as_pattern(self) -> (r: ChannelEndpoint)
        ensures
            r@ == (EndpointView { pattern: true, ..self@ }),
    {
        ChannelEndpoint { pattern: true, ..self }
    }

    /// The endpoint with its channel known.
    pub fn resolve_channel(self, raw: String, normalized: String) -> (r: ChannelEndpoint)
        ensures
            r@ == (EndpointView {
                channel_raw: raw@,
                channel_normalized: normalized@,
                resolved: true,
                ..self@
            }),
    {
        ChannelEndpoint {
            channel_raw: raw,
            channel_normalized: normalized,
            resolved: true,
            ..self
        }
    }

    /// A copy of the endpoint.
    pub fn copied(&self) -> (r: ChannelEndpoint)
        ensures
            r == *self,
    {
        ChannelEndpoint {
            id: self.id.clone(),
            repository_id: self.repository_id.clone(),
            file_path: self.file_path.clone(),
            line: self.line,
            protocol: self.protocol,
            role: self.role,
            channel_raw: self.channel_raw.clone(),
            channel_normalized: self.channel_normalized.clone(),
            confidence: self.confidence,
            source: self.source,
            resolved: self.resolved,
            pattern: self.pattern,
            confirmed: self.confirmed,
            library: copy_opt(&self.library),
            host: copy_opt(&self.host),
            env_var: copy_opt(&self.env_var),
            method: copy_opt(&self.method),
            enclosing_symbol: copy_opt(&self.enclosing_symbol),
        }
    }
}

impl Ranked for ChannelEndpoint {
    /// By repository, file and line.
    open spec fn ranks_before(self, other: Self) -> bool {
        let a = seq![self.repository_id@, self.file_path@];
        let b = seq![other.repository_id@, other.file_path@];
        texts_lt(a, b) || (a == b && self.line < other.line)
    }

    fn goes_before(&self, other: &Self) -> (r: bool) {
        let a: [&str; 2] = [self.repository_id.as_str(), self.file_path.as_str()];
        let b: [&str; 2] = [other.repository_id.as_str(), other.file_path.as_str()];
        let ghost x = seq![self.repository_id@, self.file_path@];
        let ghost y = seq![other.repository_id@, other.file_path@];
        proof {
            assert(str_views(a@) =~= x);
            assert(str_views(b@) =~= y);
            lemma_texts_order(x, y, x);
            if self.repository_id@ == other.repository_id@ && self.file_path@ == other.file_path@ {
                assert(x =~= y);
            }
            if x == y {
                assert(x[0] == y[0] && x[1] == y[1]);
            }
        }
        if same_text(self.repository_id.as_str(), other.repository_id.as_str()) && same_text(
            self.file_path.as_str(),
            other.file_path.as_str(),
        ) {
            self.line < other.line
        } else {
            texts_less(a.as_slice(), b.as_slice())
        }
    }

    proof fn rank_laws(a: Self, b: Self, c: Self) {
        lemma_texts_order(
            seq![a.repository_id@, a.file_path@],
            seq![b.repository_id@, b.file_path@],
            seq![c.repository_id@, c.file_path@],
        );
    }
}

} // verus!

//! Channel endpoints completed from the rest of the repository: the library
//! behind a call, the value behind a configuration, and the call sites that
//! only the symbol index knows.

use vstd::prelude::*;
use vstd::slice::slice_subrange;
use vstd::string::*;
use crate::channel_routes::{normal_route, normalize_http_route, split_http_url, url_parts};
use crate::channels::{
    ChannelEndpoint, ChannelRole, EndpointSource, EndpointView, Protocol, bare_endpoint,
    endpoint_views,
};
use crate::collections::{Entry, TextMap};
use crate::domain::SymbolReference;
use crate::text::{
    char_at, chars_of, contains_text, copy_opt, decimal, decimal_text, ends_with, find_char,
    finishes, has_part, last_char_at, opt_str, opt_text, replace_char, rfind_char, same_chars,
    same_text, string_of, texts, trim, trimmed, with_replaced,
};
use crate::unicode::{ascii_lower, small_chars};

verus! {

/// Confidence of an endpoint whose library is confirmed.
pub const CONFIRMED_CONFIDENCE: i64 = 900_000;

/// Confidence of an endpoint that only a package reference shows.
pub const PACKAGE_DRIVEN_CONFIDENCE: i64 = 600_000;

/// How many lines apart a reference and an endpoint may stand and still be one
/// call site.
pub const CALL_SITE_LINE_WINDOW: u32 = 2;

/// A value found behind a configuration expression, and the environment
/// variable that can override it.
#[derive(Debug, PartialEq, Eq)]
pub struct ResolvedConfigValue {
    pub value: String,
    pub env_var: Option<String>,
}

/// What a resolved value says.
pub open spec fn value_texts(r: Option<ResolvedConfigValue>) -> Option<
    (Seq<char>, Option<Seq<char>>),
> {
    match r {
        Some(v) => Some((v.value@, opt_text(v.env_var))),
        None => None,
    }
}

/// The texts of modules to search: name and source.
pub open spec fn candidate_texts(s: Seq<(String, String)>) -> Seq<(Seq<char>, Seq<char>)> {
    Seq::new(s.len(), |i: int| (s[i].0@, s[i].1@))
}

/// The texts of an optional list.
pub open spec fn opt_texts(o: Option<Vec<String>>) -> Option<Seq<Seq<char>>> {
    match o {
        Some(v) => Some(texts(v@)),
        None => None,
    }
}

/// Reads channels out of source code. What it answers depends on what it is
/// asked alone.
pub trait ChannelResolver {
    /// The answer of [`Self::resolve_config_expression`].
    closed spec fn config_value(
        &self,
        expression: Seq<char>,
        enclosing_class: Option<Seq<char>>,
        candidates: Seq<(Seq<char>, Seq<char>)>,
    ) -> Option<(Seq<char>, Option<Seq<char>>)> {
        arbitrary()
    }

    /// The answer of [`Self::resolve_topic_pattern`].
    closed spec fn topic_pattern(
        &self,
        expression: Seq<char>,
        source: Seq<char>,
        line: u32,
        candidates: Seq<(Seq<char>, Seq<char>)>,
    ) -> Option<Seq<char>> {
        arbitrary()
    }

    /// The answer of [`Self::channel_argument_at`].
    closed spec fn argument(&self, source: Seq<char>, line: u32) -> Option<Seq<char>> {
        arbitrary()
    }

    /// The answer of [`Self::is_http_route_call_at`].
    closed spec fn route_call(&self, source: Seq<char>, line: u32) -> bool {
        arbitrary()
    }

    /// The answer of [`Self::resolve_loop_array_paths`].
    closed spec fn loop_paths(&self, expression: Seq<char>, source: Seq<char>, line: u32) -> Option<
        Seq<Seq<char>>,
    > {
        arbitrary()
    }

    /// The value behind a configuration expression.
    fn resolve_config_expression(
        &self,
        expression: &str,
        enclosing_class: Option<&str>,
        candidates: &[(String, String)],
    ) -> (r: Option<ResolvedConfigValue>)
        ensures
            value_texts(r) == self.config_value(
                expression@,
                opt_str(enclosing_class),
                candidate_texts(candidates@),
            ),
    ;

    /// The pattern of a channel that is computed at run time.
    fn resolve_topic_pattern(
        &self,
        expression: &str,
        call_site_source: &str,
        call_line: u32,
        candidates: &[(String, String)],
    ) -> (r: Option<String>)
        ensures
            opt_text(r) == self.topic_pattern(
                expression@,
                call_site_source@,
                call_line,
                candidate_texts(candidates@),
            ),
    ;

    /// The channel argument of the call at a line.
    fn channel_argument_at(&self, call_site_source: &str, call_line: u32) -> (r: Option<String>)
        ensures
            opt_text(r) == self.argument(call_site_source@, call_line),
    ;

    /// Whether the call at a line registers a route.
    fn is_http_route_call_at(&self, call_site_source: &str, call_line: u32) -> (r: bool)
        ensures
            r == self.route_call(call_site_source@, call_line),
    ;

    /// The paths that a loop over a table of routes registers.
    fn resolve_loop_array_paths(
        &self,
        expression: &str,
        call_site_source: &str,
        call_line: u32,
    ) -> (r: Option<Vec<String>>)
        ensures
            opt_texts(r) == self.loop_paths(expression@, call_site_source@, call_line),
    ;
}

/// The protocol that a client library speaks, by its package name.
pub open spec fn package_protocol(package: Seq<char>) -> Option<Protocol> {
    let p = ascii_lower(package);
    if contains_text(p, "kafka"@) || contains_text(p, "rdkafka"@) {
        Some(Protocol::Kafka)
    } else if contains_text(p, "mqtt"@) {
        Some(Protocol::Mqtt)
    } else if contains_text(p, "amqp"@) || contains_text(p, "rabbit"@) {
        Some(Protocol::Amqp)
    } else if contains_text(p, "grpc"@) {
        Some(Protocol::Grpc)
    } else {
        None
    }
}

fn part_of(s: &[char], p: &str) -> (r: bool)
    ensures
        r == contains_text(s@, p@),
{
    let cs = chars_of(p);
    has_part(s, &cs)
}

/// The protocol that a client library speaks.
pub fn protocol_for_package(package: &str) -> (r: Option<Protocol>)
    ensures
        r == package_protocol(package@),
{
    let cs = chars_of(package);
    let p = small_chars(&cs);
    if part_of(&p, "kafka") || part_of(&p, "rdkafka") {
        Some(Protocol::Kafka)
    } else if part_of(&p, "mqtt") {
        Some(Protocol::Mqtt)
    } else if part_of(&p, "amqp") || part_of(&p, "rabbit") {
        Some(Protocol::Amqp)
    } else if part_of(&p, "grpc") {
        Some(Protocol::Grpc)
    } else {
        None
    }
}

/// The package is an HTTP server framework.
pub open spec fn is_server_package(package: Seq<char>) -> bool {
    let p = ascii_lower(package);
    contains_text(p, "express"@) || contains_text(p, "fastify"@)
}

/// Whether a package is an HTTP server framework.
pub fn http_server_package(package: &str) -> (r: bool)
    ensures
        r == is_server_package(package@),
{
    let cs = chars_of(package);
    let p = small_chars(&cs);
    part_of(&p, "express") || part_of(&p, "fastify")
}

/// Whether a call into the package can be a channel endpoint.
pub fn is_messaging_package(package: &str) -> (r: bool)
    ensures
        r == (package_protocol(package@) is Some || is_server_package(package@)),
{
    protocol_for_package(package).is_some() || http_server_package(package)
}

/// What stands behind the last of three separators.
pub open spec fn last_piece(s: Seq<char>, a: char, b: char, c: char) -> Seq<char> {
    s.skip(rfind_char(replace_char(replace_char(s, b, a), c, a), a) + 1)
}

fn piece_of(s: &[char], a: char, b: char, c: char) -> (r: &[char])
    ensures
        r@ == last_piece(s@, a, b, c),
{
    let n: usize = s.len();
    let u = with_replaced(&with_replaced(s, b, a), c, a);
    let from: usize = match last_char_at(&u, a) {
        Some(i) => {
            assert(u@.len() == s@.len());
            i + 1
        },
        None => 0,
    };
    assert(s@.subrange(from as int, s@.len() as int) =~= s@.skip(from as int));
    slice_subrange(s, from, n)
}

/// The type that a route method is called on holds routes, and is no message.
pub open spec fn holds_routes(receiver: Seq<char>) -> bool {
    let r = ascii_lower(receiver);
    &&& contains_text(r, "router"@) || contains_text(r, "application"@) || contains_text(
        r,
        "fastify"@,
    ) || ends_with(r, "app"@) || contains_text(r, "server"@)
    &&& !(contains_text(r, "request"@) || contains_text(r, "response"@) || contains_text(
        r,
        "incomingmessage"@,
    ) || contains_text(r, "reply"@))
}

fn route_holder(receiver: &[char]) -> (b: bool)
    ensures
        b == holds_routes(receiver@),
{
    let r = small_chars(receiver);
    let app = chars_of("app");
    let holder = part_of(&r, "router") || part_of(&r, "application") || part_of(&r, "fastify")
        || finishes(&r, &app) || part_of(&r, "server");
    let message = part_of(&r, "request") || part_of(&r, "response") || part_of(
        &r,
        "incomingmessage",
    ) || part_of(&r, "reply");
    holder && !message
}

/// The verb of a route method, by its name in small letters.
pub open spec fn verb_of(m: Seq<char>) -> Option<Seq<char>> {
    if m == "get"@ {
        Some("GET"@)
    } else if m == "post"@ {
        Some("POST"@)
    } else if m == "put"@ {
        Some("PUT"@)
    } else if m == "delete"@ {
        Some("DELETE"@)
    } else if m == "patch"@ {
        Some("PATCH"@)
    } else if m == "head"@ {
        Some("HEAD"@)
    } else if m == "options"@ {
        Some("OPTIONS"@)
    } else if m == "all"@ || m == "route"@ {
        Some("ANY"@)
    } else {
        None
    }
}

/// The verb that a route registration names. Where the symbol says what it is
/// called on, this must hold routes.
pub open spec fn symbol_verb(symbol: Seq<char>) -> Option<Seq<char>> {
    let hash = rfind_char(symbol, '#');
    if hash >= 0 && !holds_routes(symbol.take(hash)) {
        None
    } else {
        verb_of(ascii_lower(last_piece(symbol, '#', '.', ':')))
    }
}

fn is_word(m: &[char], w: &str) -> (r: bool)
    ensures
        r == (m@ == w@),
{
    let cs = chars_of(w);
    same_chars(m, &cs)
}

/// The verb that a route registration names.
pub fn http_verb_for_symbol(callee_symbol: &str) -> (r: Option<&'static str>)
    ensures
        opt_str(r) == symbol_verb(callee_symbol@),
{
    let cs = chars_of(callee_symbol);
    if let Some(hash) = last_char_at(&cs, '#') {
        let receiver = slice_subrange(&cs, 0, hash);
        assert(receiver@ =~= callee_symbol@.take(hash as int));
        if !route_holder(receiver) {
            return None;
        }
    }
    let m = small_chars(piece_of(&cs, '#', '.', ':'));
    if is_word(&m, "get") {
        Some("GET")
    } else if is_word(&m, "post") {
        Some("POST")
    } else if is_word(&m, "put") {
        Some("PUT")
    } else if is_word(&m, "delete") {
        Some("DELETE")
    } else if is_word(&m, "patch") {
        Some("PATCH")
    } else if is_word(&m, "head") {
        Some("HEAD")
    } else if is_word(&m, "options") {
        Some("OPTIONS")
    } else if is_word(&m, "all") || is_word(&m, "route") {
        Some("ANY")
    } else {
        None
    }
}

/// The receiver of a call is a consumer.
pub open spec fn is_consumer_type(receiver: Seq<char>) -> bool {
    let r = ascii_lower(receiver);
    &&& !(contains_text(r, "producer"@) || contains_text(r, "publisher"@))
    &&& contains_text(r, "consumer"@) || contains_text(r, "subscriber"@)
}

/// The role that a call to a client library has: by its method, and for the
/// methods that both ends share by its receiver.
pub open spec fn symbol_role(symbol: Seq<char>) -> Option<ChannelRole> {
    let hash = rfind_char(symbol, '#');
    let m = ascii_lower(symbol.skip(hash + 1));
    if m == "send"@ || m == "produce"@ || m == "publish"@ || m == "emit"@ || m == "batchsend"@ {
        Some(ChannelRole::Producer)
    } else if m == "subscribe"@ || m == "consume"@ || m == "consumeone"@ || m == "eachmessage"@ || m
        == "eachbatch"@ {
        Some(ChannelRole::Consumer)
    } else if (m == "connect"@ || m == "run"@ || m == "each"@) && hash >= 0 && is_consumer_type(
        symbol.take(hash),
    ) {
        Some(ChannelRole::Consumer)
    } else {
        None
    }
}

fn consumer_type(receiver: &[char]) -> (b: bool)
    ensures
        b == is_consumer_type(receiver@),
{
    let r = small_chars(receiver);
    !(part_of(&r, "producer") || part_of(&r, "publisher")) && (part_of(&r, "consumer") || part_of(
        &r,
        "subscriber",
    ))
}

/// The role that a call to a client library has.
pub fn role_for_symbol(callee_symbol: &str) -> (r: Option<ChannelRole>)
    ensures
        r == symbol_role(callee_symbol@),
{
    let cs = chars_of(callee_symbol);
    let hash = last_char_at(&cs, '#');
    let from: usize = match hash {
        Some(i) => i + 1,
        None => 0,
    };
    assert(cs@.subrange(from as int, cs@.len() as int) =~= cs@.skip(from as int));
    let m = small_chars(slice_subrange(&cs, from, cs.len()));
    if is_word(&m, "send") || is_word(&m, "produce") || is_word(&m, "publish") || is_word(
        &m,
        "emit",
    ) || is_word(&m, "batchsend") {
        return Some(ChannelRole::Producer);
    }
    if is_word(&m, "subscribe") || is_word(&m, "consume") || is_word(&m, "consumeone") || is_word(
        &m,
        "eachmessage",
    ) || is_word(&m, "eachbatch") {
        return Some(ChannelRole::Consumer);
    }
    if is_word(&m, "connect") || is_word(&m, "run") || is_word(&m, "each") {
        if let Some(i) = hash {
            let receiver = slice_subrange(&cs, 0, i);
            assert(receiver@ =~= callee_symbol@.take(i as int));
            if consumer_type(receiver) {
                return Some(ChannelRole::Consumer);
            }
        }
    }
    None
}

/// What a reference into a library originates.
#[derive(Debug, Clone, Copy)]
pub enum RefKind {
    /// A call of a messaging client.
    Messaging { protocol: Protocol, role: ChannelRole },
    /// The registration of a route, which consumes.
    Http { verb: &'static str },
}

/// What a kind says.
pub enum RefKindView {
    Messaging { protocol: Protocol, role: ChannelRole },
    Http { verb: Seq<char> },
}

impl View for RefKind {
    type V = RefKindView;

    open spec fn view(&self) -> RefKindView {
        match self {
            RefKind::Messaging { protocol, role } => RefKindView::Messaging {
                protocol: *protocol,
                role: *role,
            },
            RefKind::Http { verb } => RefKindView::Http { verb: verb@ },
        }
    }
}

impl RefKindView {
    /// The protocol of the kind.
    pub open spec fn protocol_of(self) -> Protocol {
        match self {
            RefKindView::Messaging { protocol, .. } => protocol,
            RefKindView::Http { .. } => Protocol::Http,
        }
    }

    /// The role of the kind.
    pub open spec fn role_of(self) -> ChannelRole {
        match self {
            RefKindView::Messaging { role, .. } => role,
            RefKindView::Http { .. } => ChannelRole::Consumer,
        }
    }
}

impl RefKind {
    pub fn protocol(&self) -> (r: Protocol)
        ensures
            r == self@.protocol_of(),
    {
        match self {
            RefKind::Messaging { protocol, .. } => *protocol,
            RefKind::Http { .. } => Protocol::Http,
        }
    }

    pub fn role(&self) -> (r: ChannelRole)
        ensures
            r == self@.role_of(),
    {
        match self {
            RefKind::Messaging { role, .. } => *role,
            RefKind::Http { .. } => ChannelRole::Consumer,
        }
    }
}

/// What an optional kind says.
pub open spec fn kind_view(k: Option<RefKind>) -> Option<RefKindView> {
    match k {
        Some(k) => Some(k@),
        None => None,
    }
}

/// What a reference into a package originates, if it is a channel operation.
pub open spec fn classified(package: Seq<char>, symbol: Seq<char>) -> Option<RefKindView> {
    if is_server_package(package) && symbol_verb(symbol) is Some {
        Some(RefKindView::Http { verb: symbol_verb(symbol)->0 })
    } else if package_protocol(package) is Some && symbol_role(symbol) is Some {
        Some(
            RefKindView::Messaging {
                protocol: package_protocol(package)->0,
                role: symbol_role(symbol)->0,
            },
        )
    } else {
        None
    }
}

/// What a reference into a package originates.
pub fn classify_ref(package: &str, callee_symbol: &str) -> (r: Option<RefKind>)
    ensures
        kind_view(r) == classified(package@, callee_symbol@),
{
    if http_server_package(package) {
        if let Some(verb) = http_verb_for_symbol(callee_symbol) {
            return Some(RefKind::Http { verb });
        }
    }
    if let Some(protocol) = protocol_for_package(package) {
        if let Some(role) = role_for_symbol(callee_symbol) {
            return Some(RefKind::Messaging { protocol, role });
        }
    }
    None
}

/// A quote of a string literal.
pub open spec fn is_quote(c: char) -> bool {
    c == '"' || c == '\'' || c == '`'
}

/// The text inside a quoted string.
pub open spec fn literal_text(raw: Seq<char>) -> Option<Seq<char>> {
    let t = trim(raw);
    if t.len() >= 2 && is_quote(t[0]) && t.last() == t[0] {
        Some(t.subrange(1, t.len() - 1))
    } else {
        None
    }
}

/// The text inside a quoted string; none where there is no such string.
pub fn strip_str_literal(raw: &str) -> (r: Option<String>)
    ensures
        opt_text(r) == literal_text(raw@),
{
    let cs = chars_of(raw);
    let t = trimmed(&cs);
    let n: usize = t.len();
    if n >= 2 && (t[0] == '"' || t[0] == '\'' || t[0] == '`') && t[n - 1] == t[0] {
        Some(string_of(slice_subrange(t, 1, n - 1)))
    } else {
        None
    }
}

/// The callee reads from a topic that was named before.
pub open spec fn is_read_loop(symbol: Seq<char>) -> bool {
    let m = ascii_lower(last_piece(symbol, '#', '.', ':'));
    m == "consume"@ || m == "consumeone"@ || m == "run"@ || m == "each"@ || m == "eachmessage"@ || m
        == "eachbatch"@
}

/// Whether the callee reads from a topic that was named before.
pub fn read_loop_verb(callee_symbol: &str) -> (r: bool)
    ensures
        r == is_read_loop(callee_symbol@),
{
    let cs = chars_of(callee_symbol);
    let m = small_chars(piece_of(&cs, '#', '.', ':'));
    is_word(&m, "consume") || is_word(&m, "consumeone") || is_word(&m, "run") || is_word(&m, "each")
        || is_word(&m, "eachmessage") || is_word(&m, "eachbatch")
}

/// What an endpoint is called whose channel cannot be read: the type that the
/// method is called on, else the method.
pub open spec fn hint_text(symbol: Seq<char>) -> Seq<char> {
    let hash = rfind_char(symbol, '#');
    if hash > 0 {
        last_piece(symbol.take(hash), '.', '/', ':')
    } else {
        last_piece(symbol, '#', '.', ':')
    }
}

/// What an endpoint is called whose channel cannot be read.
pub fn channel_hint(callee_symbol: &str) -> (r: String)
    ensures
        r@ == hint_text(callee_symbol@),
{
    let cs = chars_of(callee_symbol);
    if let Some(hash) = last_char_at(&cs, '#') {
        if hash > 0 {
            let receiver = slice_subrange(&cs, 0, hash);
            assert(receiver@ =~= callee_symbol@.take(hash as int));
            return string_of(piece_of(receiver, '.', '/', ':'));
        }
    }
    string_of(piece_of(&cs, '#', '.', ':'))
}

/// The host, the normal form and whether it is a pattern, of a channel as it
/// was written.
pub open spec fn normal_channel(protocol: Protocol, raw: Seq<char>) -> (
    Option<Seq<char>>,
    Seq<char>,
    bool,
) {
    if protocol == Protocol::Http {
        (url_parts(raw).0, normal_route(url_parts(raw).1), false)
    } else if protocol == Protocol::Mqtt {
        (None, raw, find_char(raw, '+') >= 0 || find_char(raw, '#') >= 0)
    } else {
        (None, raw, false)
    }
}

/// Brings a channel into its normal form.
pub fn normalize_channel(protocol: Protocol, raw: &str) -> (r: (Option<String>, String, bool))
    ensures
        (opt_text(r.0), r.1@, r.2) == normal_channel(protocol, raw@),
{
    if protocol == Protocol::Http {
        let (host, path) = split_http_url(raw);
        return (host, normalize_http_route(path.as_str()), false);
    }
    let wild = if protocol == Protocol::Mqtt {
        let cs = chars_of(raw);
        char_at(&cs, '+', 0).is_some() || char_at(&cs, '#', 0).is_some()
    } else {
        false
    };
    (None, raw.to_string(), wild)
}

/// Two lines are near enough to be one call site.
pub open spec fn near(a: u32, b: u32) -> bool {
    -CALL_SITE_LINE_WINDOW <= a - b <= CALL_SITE_LINE_WINDOW
}

/// How far two lines are apart.
pub open spec fn apart(a: u32, b: u32) -> int {
    if a >= b {
        a - b
    } else {
        b - a
    }
}

fn distance(a: u32, b: u32) -> (r: u32)
    ensures
        r == apart(a, b),
{
    if a >= b {
        a - b
    } else {
        b - a
    }
}

/// References by the file they stand in.
pub type RefsByFile = TextMap<Vec<SymbolReference>>;

/// The references of a file.
pub open spec fn refs_in(
    refs: Map<Seq<char>, Vec<SymbolReference>>,
    file: Seq<char>,
) -> Seq<SymbolReference> {
    if refs.contains_key(file) {
        refs[file]@
    } else {
        Seq::empty()
    }
}

/// The scope of the first reference near the line that has one.
pub open spec fn scope_at(refs: Seq<SymbolReference>, line: u32) -> Option<Seq<char>>
    decreases refs.len(),
{
    if refs.len() == 0 {
        None
    } else {
        let d = scope_at(refs.drop_last(), line);
        if d is Some {
            d
        } else if near(refs.last().reference_line, line) {
            opt_text(refs.last().enclosing_scope)
        } else {
            None
        }
    }
}

/// The class that the call at a line stands in.
pub fn enclosing_class_at(file_path: &str, line: u32, refs_by_file: &RefsByFile) -> (r: Option<
    String,
>)
    ensures
        opt_text(r) == scope_at(refs_in(refs_by_file@, file_path@), line),
{
    let refs = match refs_by_file.get(file_path) {
        Some(v) => v,
        None => {
            return None;
        },
    };
    let mut found: Option<String> = None;
    let mut i: usize = 0;
    while i < refs.len()
        invariant
            i <= refs@.len(),
            opt_text(found) == scope_at(refs@.take(i as int), line),
        decreases refs@.len() - i,
    {
        proof {
            assert(refs@.take(i + 1).drop_last() =~= refs@.take(i as int));
            assert(refs@.take(i + 1).last() == refs@[i as int]);
        }
        if found.is_none() && distance(refs[i].reference_line, line) <= CALL_SITE_LINE_WINDOW {
            found = copy_opt(&refs[i].enclosing_scope);
        }
        i += 1;
    }
    assert(refs@.take(i as int) =~= refs@);
    found
}

/// The reference is near the line and leads into a client library.
pub open spec fn backs(r: SymbolReference, line: u32) -> bool {
    near(r.reference_line, line) && r.callee_package is Some && package_protocol(
        r.callee_package->0@,
    ) is Some
}

/// The place of the first of the nearest references that lead into a client
/// library, or -1.
pub open spec fn backing(refs: Seq<SymbolReference>, line: u32) -> int
    decreases refs.len(),
{
    if refs.len() == 0 {
        -1
    } else {
        let d = refs.drop_last();
        let b = backing(d, line);
        if backs(refs.last(), line) && (b < 0 || apart(refs.last().reference_line, line) < apart(
            d[b].reference_line,
            line,
        )) {
            refs.len() - 1
        } else {
            b
        }
    }
}

/// The package of the client library behind the call at a line.
pub open spec fn library_at(refs: Seq<SymbolReference>, line: u32) -> Option<Seq<char>> {
    if backing(refs, line) >= 0 {
        opt_text(refs[backing(refs, line)].callee_package)
    } else {
        None
    }
}

/// The package of the client library behind the call at a line.
pub fn library_package_at(file_path: &str, line: u32, refs_by_file: &RefsByFile) -> (r: Option<
    String,
>)
    ensures
        opt_text(r) == library_at(refs_in(refs_by_file@, file_path@), line),
        r matches Some(p) ==> package_protocol(p@) is Some,
{
    let refs = match refs_by_file.get(file_path) {
        Some(v) => v,
        None => {
            return None;
        },
    };
    let mut best: Option<usize> = None;
    let mut i: usize = 0;
    while i < refs.len()
        invariant
            i <= refs@.len(),
            best matches Some(b) ==> b < i && b == backing(refs@.take(i as int), line) && backs(
                refs@[b as int],
                line,
            ),
            best is None ==> backing(refs@.take(i as int), line) < 0,
        decreases refs@.len() - i,
    {
        let r = &refs[i];
        proof {
            assert(refs@.take(i + 1).drop_last() =~= refs@.take(i as int));
            assert(refs@.take(i + 1).last() == refs@[i as int]);
        }
        let known = match &r.callee_package {
            Some(p) => protocol_for_package(p.as_str()).is_some(),
            None => false,
        };
        let far: u32 = distance(r.reference_line, line);
        if known && far <= CALL_SITE_LINE_WINDOW {
            match best {
                Some(b) => {
                    assert(refs@.take(i as int)[b as int] == refs@[b as int]);
                    if far < distance(refs[b].reference_line, line) {
                        best = Some(i);
                    }
                },
                None => {
                    best = Some(i);
                },
            }
        }
        i += 1;
    }
    assert(refs@.take(i as int) =~= refs@);
    match best {
        Some(b) => copy_opt(&refs[b].callee_package),
        None => None,
    }
}

/// The endpoint, confirmed where the library behind its call speaks its
/// protocol.
pub open spec fn with_backing(
    e: EndpointView,
    refs: Map<Seq<char>, Vec<SymbolReference>>,
) -> EndpointView {
    match library_at(refs_in(refs, e.file_path), e.line) {
        Some(package) if package_protocol(package) == Some(e.protocol) => EndpointView {
            library: Some(package),
            confirmed: true,
            confidence: CONFIRMED_CONFIDENCE,
            ..e
        },
        _ => e,
    }
}

/// The endpoint with the channel `raw`.
pub open spec fn on_channel(e: EndpointView, raw: Seq<char>) -> EndpointView {
    let (host, normalized, pattern) = normal_channel(e.protocol, raw);
    EndpointView {
        channel_raw: raw,
        channel_normalized: normalized,
        resolved: true,
        host: if host is Some {
            host
        } else {
            e.host
        },
        pattern: e.pattern || pattern,
        ..e
    }
}

/// The endpoint with the channel that its configuration gives it.
pub open spec fn with_config<R: ChannelResolver>(
    resolver: R,
    e: EndpointView,
    refs: Map<Seq<char>, Vec<SymbolReference>>,
    candidates: Seq<(Seq<char>, Seq<char>)>,
) -> EndpointView {
    if e.resolved {
        e
    } else {
        match resolver.config_value(
            e.channel_raw,
            scope_at(refs_in(refs, e.file_path), e.line),
            candidates,
        ) {
            Some((value, env_var)) => EndpointView {
                env_var: if env_var is Some {
                    env_var
                } else {
                    e.env_var
                },
                ..on_channel(e, value)
            },
            None => e,
        }
    }
}

/// The endpoint with the pattern that its channel is computed by.
pub open spec fn with_pattern<R: ChannelResolver>(
    resolver: R,
    e: EndpointView,
    candidates: Seq<(Seq<char>, Seq<char>)>,
    sources: Map<Seq<char>, String>,
) -> EndpointView {
    if e.resolved || !sources.contains_key(e.file_path) {
        e
    } else {
        match resolver.topic_pattern(
            e.channel_raw,
            sources[e.file_path]@,
            e.line,
            candidates,
        ) {
            Some(pattern) => EndpointView {
                channel_raw: pattern,
                channel_normalized: normal_channel(e.protocol, pattern).1,
                resolved: true,
                pattern: true,
                ..e
            },
            None => e,
        }
    }
}

/// The endpoint with the channel that its configuration or its source gives
/// it.
pub open spec fn located<R: ChannelResolver>(
    resolver: R,
    e: EndpointView,
    refs: Map<Seq<char>, Vec<SymbolReference>>,
    candidates: Seq<(Seq<char>, Seq<char>)>,
    sources: Map<Seq<char>, String>,
) -> EndpointView {
    with_pattern(resolver, with_config(resolver, e, refs, candidates), candidates, sources)
}

/// The endpoints, each located.
pub open spec fn all_located<R: ChannelResolver>(
    resolver: R,
    es: Seq<EndpointView>,
    refs: Map<Seq<char>, Vec<SymbolReference>>,
    candidates: Seq<(Seq<char>, Seq<char>)>,
    sources: Map<Seq<char>, String>,
) -> Seq<EndpointView> {
    Seq::new(es.len(), |i: int| located(resolver, es[i], refs, candidates, sources))
}

/// The endpoint, completed: confirmed by the library behind its call, then
/// located.
pub open spec fn completed<R: ChannelResolver>(
    resolver: R,
    e: EndpointView,
    refs: Map<Seq<char>, Vec<SymbolReference>>,
    candidates: Seq<(Seq<char>, Seq<char>)>,
    sources: Map<Seq<char>, String>,
) -> EndpointView {
    located(resolver, with_backing(e, refs), refs, candidates, sources)
}

/// The endpoints, each completed.
pub open spec fn all_completed<R: ChannelResolver>(
    resolver: R,
    es: Seq<EndpointView>,
    refs: Map<Seq<char>, Vec<SymbolReference>>,
    candidates: Seq<(Seq<char>, Seq<char>)>,
    sources: Map<Seq<char>, String>,
) -> Seq<EndpointView> {
    Seq::new(es.len(), |i: int| completed(resolver, es[i], refs, candidates, sources))
}

/// A channel that is known stays as it is: completion can only confirm the
/// library behind it.
pub proof fn lemma_completed_keeps_channel<R: ChannelResolver>(
    resolver: R,
    e: EndpointView,
    refs: Map<Seq<char>, Vec<SymbolReference>>,
    candidates: Seq<(Seq<char>, Seq<char>)>,
    sources: Map<Seq<char>, String>,
)
    requires
        e.resolved,
    ensures
        completed(resolver, e, refs, candidates, sources) == with_backing(e, refs),
        completed(resolver, e, refs, candidates, sources).channel_normalized
            == e.channel_normalized,
{
}

/// One endpoint covers the line for the role: the extractor found it there.
pub open spec fn covers(e: EndpointView, file: Seq<char>, line: u32, role: ChannelRole) -> bool {
    e.source == EndpointSource::TreeSitter && e.file_path == file && e.role == role && near(
        e.line,
        line,
    )
}

/// Some endpoint covers the line for the role.
pub open spec fn is_covered_site(
    existing: Seq<EndpointView>,
    file: Seq<char>,
    line: u32,
    role: ChannelRole,
) -> bool {
    exists|i: int| 0 <= i < existing.len() && covers(#[trigger] existing[i], file, line, role)
}

/// What a reference originates.
pub open spec fn origin(r: SymbolReference) -> Option<RefKindView> {
    match r.callee_package {
        Some(package) => classified(package@, r.callee_symbol@),
        None => None,
    }
}

/// An earlier reference originates an endpoint of the role on the line.
pub open spec fn seen_before(
    refs: Seq<SymbolReference>,
    line: u32,
    role: ChannelRole,
) -> bool {
    exists|i: int|
        0 <= i < refs.len() && origin(#[trigger] refs[i]) is Some && origin(
            refs[i],
        )->0.role_of() == role && refs[i].reference_line == line
}

/// The channel argument of the call on a line, where the source is there.
pub open spec fn argument_at<R: ChannelResolver>(
    resolver: R,
    sources: Map<Seq<char>, String>,
    file: Seq<char>,
    line: u32,
) -> Option<Seq<char>> {
    if sources.contains_key(file) {
        resolver.argument(sources[file]@, line)
    } else {
        None
    }
}

/// The reference can originate nothing: it reads from a topic that was named
/// before, or a call that looks like a route registers none.
pub open spec fn is_barren<R: ChannelResolver>(
    resolver: R,
    sources: Map<Seq<char>, String>,
    file: Seq<char>,
    r: SymbolReference,
) -> bool {
    ||| argument_at(resolver, sources, file, r.reference_line) is None && is_read_loop(
        r.callee_symbol@,
    )
    ||| origin(r) is Some && origin(r)->0 is Http && sources.contains_key(file)
        && !resolver.route_call(sources[file]@, r.reference_line)
}

/// The id of an endpoint that a reference originates, which depends on its
/// place and role alone.
pub open spec fn synthesized_id(
    repository_id: Seq<char>,
    file: Seq<char>,
    line: u32,
    role: ChannelRole,
) -> Seq<char> {
    "synth:"@ + repository_id + ":"@ + file + ":"@ + decimal(line as nat) + ":"@ + role.text()
}

/// The endpoint that a reference originates.
pub open spec fn synthesized<R: ChannelResolver>(
    resolver: R,
    repository_id: Seq<char>,
    sources: Map<Seq<char>, String>,
    file: Seq<char>,
    r: SymbolReference,
) -> EndpointView {
    let kind = origin(r)->0;
    let line = r.reference_line;
    let role = kind.role_of();
    let raw = match argument_at(resolver, sources, file, line) {
        Some(a) => a,
        None => hint_text(r.callee_symbol@),
    };
    let path = if kind is Http {
        literal_text(raw)
    } else {
        None
    };
    let base = EndpointView {
        library: opt_text(r.callee_package),
        confirmed: true,
        resolved: path is Some,
        method: match kind {
            RefKindView::Http { verb } => Some(verb),
            RefKindView::Messaging { .. } => None,
        },
        enclosing_symbol: opt_text(r.enclosing_scope),
        ..bare_endpoint(
            synthesized_id(repository_id, file, line, role),
            repository_id,
            file,
            line,
            kind.protocol_of(),
            role,
            raw,
            raw,
            PACKAGE_DRIVEN_CONFIDENCE,
            EndpointSource::Config,
        )
    };
    match path {
        Some(p) => on_channel(base, p),
        None => base,
    }
}

/// The endpoints that the references of one file originate: at most one for
/// each line and role, and none where the extractor found one.
pub open spec fn file_origins<R: ChannelResolver>(
    resolver: R,
    repository_id: Seq<char>,
    existing: Seq<EndpointView>,
    sources: Map<Seq<char>, String>,
    file: Seq<char>,
    refs: Seq<SymbolReference>,
) -> Seq<EndpointView>
    decreases refs.len(),
{
    if refs.len() == 0 {
        Seq::empty()
    } else {
        let before = refs.drop_last();
        let d = file_origins(resolver, repository_id, existing, sources, file, before);
        let r = refs.last();
        match origin(r) {
            Some(kind) if !is_covered_site(existing, file, r.reference_line, kind.role_of())
                && !seen_before(before, r.reference_line, kind.role_of()) && !is_barren(
                resolver,
                sources,
                file,
                r,
            ) => d.push(synthesized(resolver, repository_id, sources, file, r)),
            _ => d,
        }
    }
}

/// The endpoints that the references of all files originate, file by file.
pub open spec fn origins<R: ChannelResolver>(
    resolver: R,
    repository_id: Seq<char>,
    existing: Seq<EndpointView>,
    sources: Map<Seq<char>, String>,
    files: Seq<Entry<Vec<SymbolReference>>>,
) -> Seq<EndpointView>
    decreases files.len(),
{
    if files.len() == 0 {
        Seq::empty()
    } else {
        origins(resolver, repository_id, existing, sources, files.drop_last()) + file_origins(
            resolver,
            repository_id,
            existing,
            sources,
            files.last().key@,
            files.last().value@,
        )
    }
}

proof fn lemma_file_origins<R: ChannelResolver>(
    resolver: R,
    repository_id: Seq<char>,
    existing: Seq<EndpointView>,
    sources: Map<Seq<char>, String>,
    file: Seq<char>,
    refs: Seq<SymbolReference>,
)
    ensures
        forall|i: int|
            0 <= i < file_origins(resolver, repository_id, existing, sources, file, refs).len()
                ==> (#[trigger] file_origins(
                resolver,
                repository_id,
                existing,
                sources,
                file,
                refs,
            )[i]).confidence == PACKAGE_DRIVEN_CONFIDENCE,
    decreases refs.len(),
{
    if refs.len() > 0 {
        lemma_file_origins(resolver, repository_id, existing, sources, file, refs.drop_last());
    }
}

/// An endpoint that only a package reference shows is scored below one whose
/// library is confirmed, whatever its configuration says of its channel.
pub proof fn lemma_originated_below_confirmed<R: ChannelResolver>(
    resolver: R,
    repository_id: Seq<char>,
    existing: Seq<EndpointView>,
    files: Seq<Entry<Vec<SymbolReference>>>,
    refs: Map<Seq<char>, Vec<SymbolReference>>,
    candidates: Seq<(Seq<char>, Seq<char>)>,
    sources: Map<Seq<char>, String>,
)
    ensures
        ({
            let added = origins(resolver, repository_id, existing, sources, files);
            forall|i: int|
                0 <= i < added.len() ==> {
                    let e = #[trigger] all_located(resolver, added, refs, candidates, sources)[i];
                    e.confidence == PACKAGE_DRIVEN_CONFIDENCE && e.confidence
                        < CONFIRMED_CONFIDENCE
                }
        }),
    decreases files.len(),
{
    if files.len() > 0 {
        let d = files.drop_last();
        let first = origins(resolver, repository_id, existing, sources, d);
        let last = file_origins(
            resolver,
            repository_id,
            existing,
            sources,
            files.last().key@,
            files.last().value@,
        );
        let added = origins(resolver, repository_id, existing, sources, files);
        lemma_originated_below_confirmed(
            resolver,
            repository_id,
            existing,
            d,
            refs,
            candidates,
            sources,
        );
        lemma_file_origins(
            resolver,
            repository_id,
            existing,
            sources,
            files.last().key@,
            files.last().value@,
        );
        assert forall|i: int| 0 <= i < added.len() implies {
            let e = #[trigger] all_located(resolver, added, refs, candidates, sources)[i];
            e.confidence == PACKAGE_DRIVEN_CONFIDENCE && e.confidence < CONFIRMED_CONFIDENCE
        } by {
            if i < first.len() {
                assert(added[i] == first[i]);
                assert(all_located(resolver, first, refs, candidates, sources)[i]
                    == all_located(resolver, added, refs, candidates, sources)[i]);
            } else {
                assert(added[i] == last[i - first.len()]);
            }
        }
    }
}

/// The paths that an endpoint in a loop over a table of routes stands for.
pub open spec fn table_paths<R: ChannelResolver>(
    resolver: R,
    e: EndpointView,
    sources: Map<Seq<char>, String>,
) -> Option<Seq<Seq<char>>> {
    if e.protocol != Protocol::Http || e.resolved || find_char(e.channel_raw, '.') < 0
        || !sources.contains_key(e.file_path) {
        None
    } else {
        resolver.loop_paths(e.channel_raw, sources[e.file_path]@, e.line)
    }
}

/// The endpoint of one path of the table.
pub open spec fn route_of(e: EndpointView, path: Seq<char>) -> EndpointView {
    EndpointView {
        id: e.id + ":"@ + normal_channel(Protocol::Http, path).1,
        ..on_channel(e, path)
    }
}

/// The endpoints of the paths of the table.
pub open spec fn routes_of(e: EndpointView, paths: Seq<Seq<char>>) -> Seq<EndpointView> {
    Seq::new(paths.len(), |i: int| route_of(e, paths[i]))
}

/// The endpoints that stand for no table of routes.
pub open spec fn plain_endpoints<R: ChannelResolver>(
    resolver: R,
    es: Seq<EndpointView>,
    sources: Map<Seq<char>, String>,
) -> Seq<EndpointView>
    decreases es.len(),
{
    if es.len() == 0 {
        es
    } else {
        let d = plain_endpoints(resolver, es.drop_last(), sources);
        if table_paths(resolver, es.last(), sources) is Some {
            d
        } else {
            d.push(es.last())
        }
    }
}

/// The endpoints of the tables of routes.
pub open spec fn table_routes<R: ChannelResolver>(
    resolver: R,
    es: Seq<EndpointView>,
    sources: Map<Seq<char>, String>,
) -> Seq<EndpointView>
    decreases es.len(),
{
    if es.len() == 0 {
        es
    } else {
        let d = table_routes(resolver, es.drop_last(), sources);
        match table_paths(resolver, es.last(), sources) {
            Some(paths) => d + routes_of(es.last(), paths),
            None => d,
        }
    }
}

/// The endpoints with each that stands for a table of routes replaced by the
/// endpoints of the table.
pub open spec fn expanded<R: ChannelResolver>(
    resolver: R,
    es: Seq<EndpointView>,
    sources: Map<Seq<char>, String>,
) -> Seq<EndpointView> {
    plain_endpoints(resolver, es, sources) + table_routes(resolver, es, sources)
}

/// Puts an endpoint on the channel `raw`.
fn put_on_channel(endpoint: ChannelEndpoint, raw: String) -> (r: ChannelEndpoint)
    ensures
        r@ == on_channel(endpoint@, raw@),
{
    let (host, normalized, pattern) = normalize_channel(endpoint.protocol, raw.as_str());
    let mut e = endpoint.resolve_channel(raw, normalized);
    if let Some(host) = host {
        e = e.with_host(host);
    }
    if pattern {
        e = e.as_pattern();
    }
    e
}

/// Completes channel endpoints with what a resolver reads from the sources.
pub struct ResolveChannelsUseCase<R> {
    pub resolver: R,
}

impl<R: ChannelResolver> ResolveChannelsUseCase<R> {
    pub fn new(resolver: R) -> (r: Self)
        ensures
            r.resolver == resolver,
    {
        ResolveChannelsUseCase { resolver }
    }

    /// Completes one endpoint.
    pub fn resolve_one(
        &self,
        endpoint: ChannelEndpoint,
        refs_by_file: &RefsByFile,
        config_candidates: &[(String, String)],
        sources_by_file: &TextMap<String>,
    ) -> (r: ChannelEndpoint)
        ensures
            r@ == completed(
                self.resolver,
                endpoint@,
                refs_by_file@,
                candidate_texts(config_candidates@),
                sources_by_file@,
            ),
    {
        let mut e = endpoint;
        if let Some(package) = library_package_at(e.file_path.as_str(), e.line, refs_by_file) {
            if let Some(protocol) = protocol_for_package(package.as_str()) {
                if protocol == e.protocol {
                    e = e.with_library(package.as_str()).confirmed().with_confidence(
                        CONFIRMED_CONFIDENCE,
                    );
                }
            }
        }
        assert(e@ == with_backing(endpoint@, refs_by_file@));
        self.locate(e, refs_by_file, config_candidates, sources_by_file)
    }

    /// Gives an endpoint the channel that its configuration or its source
    /// holds.
    pub fn locate(
        &self,
        endpoint: ChannelEndpoint,
        refs_by_file: &RefsByFile,
        config_candidates: &[(String, String)],
        sources_by_file: &TextMap<String>,
    ) -> (r: ChannelEndpoint)
        ensures
            r@ == located(
                self.resolver,
                endpoint@,
                refs_by_file@,
                candidate_texts(config_candidates@),
                sources_by_file@,
            ),
    {
        let mut e = endpoint;
        let ghost first = e@;
        if !e.resolved {
            let class = enclosing_class_at(e.file_path.as_str(), e.line, refs_by_file);
            let class_text = match &class {
                Some(s) => Some(s.as_str()),
                None => None,
            };
            let value = self.resolver.resolve_config_expression(
                e.channel_raw.as_str(),
                class_text,
                config_candidates,
            );
            if let Some(v) = value {
                e = put_on_channel(e, v.value);
                if let Some(env) = v.env_var {
                    e = e.with_env_var(env);
                }
            }
        }
        assert(e@ == with_config(
            self.resolver,
            first,
            refs_by_file@,
            candidate_texts(config_candidates@),
        ));
        if !e.resolved {
            if let Some(source) = sources_by_file.get(e.file_path.as_str()) {
                let pattern = self.resolver.resolve_topic_pattern(
                    e.channel_raw.as_str(),
                    source.as_str(),
                    e.line,
                    config_candidates,
                );
                if let Some(p) = pattern {
                    let normalized = normalize_channel(e.protocol, p.as_str()).1;
                    e = e.resolve_channel(p, normalized).as_pattern();
                }
            }
        }
        e
    }

    /// Replaces each unresolved HTTP endpoint in a loop over a table of routes
    /// by one endpoint for each route of the table.
    pub fn expand_loop_registered_routes(
        &self,
        endpoints: Vec<ChannelEndpoint>,
        sources_by_file: &TextMap<String>,
    ) -> (r: Vec<ChannelEndpoint>)
        ensures
            endpoint_views(r@) == expanded(
                self.resolver,
                endpoint_views(endpoints@),
                sources_by_file@,
            ),
    {
        let ghost all = endpoint_views(endpoints@);
        let ghost rs = self.resolver;
        let ghost ss = sources_by_file@;
        let mut kept: Vec<ChannelEndpoint> = Vec::new();
        let mut routes: Vec<ChannelEndpoint> = Vec::new();
        assert(endpoint_views(kept@) =~= plain_endpoints(rs, all.take(0), ss));
        assert(endpoint_views(routes@) =~= table_routes(rs, all.take(0), ss));
        for e in it: endpoints
            invariant
                it.seq() == endpoints@,
                all == endpoint_views(endpoints@),
                rs == self.resolver,
                ss == sources_by_file@,
                endpoint_views(kept@) == plain_endpoints(rs, all.take(it.index() as int), ss),
                endpoint_views(routes@) == table_routes(rs, all.take(it.index() as int), ss),
        {
            let ghost done = all.take(it.index() as int);
            let ghost next = all.take(it.index() as int + 1);
            let ghost kept_before = kept@;
            let ghost v = e@;
            proof {
                assert(next.drop_last() =~= done);
                assert(next.last() == v);
            }
            let dotted = {
                let cs = chars_of(e.channel_raw.as_str());
                char_at(&cs, '.', 0).is_some()
            };
            let paths = if e.protocol != Protocol::Http || e.resolved || !dotted {
                None
            } else {
                match sources_by_file.get(e.file_path.as_str()) {
                    Some(source) => self.resolver.resolve_loop_array_paths(
                        e.channel_raw.as_str(),
                        source.as_str(),
                        e.line,
                    ),
                    None => None,
                }
            };
            assert(opt_texts(paths) == table_paths(rs, v, ss));
            match paths {
                Some(paths) => {
                    let ghost before = endpoint_views(routes@);
                    let ghost want = routes_of(v, texts(paths@));
                    let mut k: usize = 0;
                    assert(before + want.take(0) =~= before);
                    while k < paths.len()
                        invariant
                            k <= paths@.len(),
                            e@ == v,
                            v.protocol == Protocol::Http,
                            want == routes_of(v, texts(paths@)),
                            endpoint_views(routes@) == before + want.take(k as int),
                        decreases paths@.len() - k,
                    {
                        let ghost routes_before = routes@;
                        let normalized = normalize_channel(Protocol::Http, paths[k].as_str()).1;
                        let mut id = e.id.clone();
                        id.append(":");
                        id.append(normalized.as_str());
                        let route = put_on_channel(e.copied(), paths[k].clone()).with_id(id);
                        let ghost w = route@;
                        routes.push(route);
                        proof {
                            assert(texts(paths@)[k as int] == paths@[k as int]@);
                            assert(w == want[k as int]);
                            assert(endpoint_views(routes@) =~= endpoint_views(routes_before).push(
                                w,
                            ));
                            assert(want.take(k + 1) =~= want.take(k as int).push(w));
                            assert((before + want.take(k as int)).push(w) =~= before + want.take(
                                k as int,
                            ).push(w));
                        }
                        k += 1;
                    }
                    assert(want.take(k as int) =~= want);
                },
                None => {
                    kept.push(e);
                    assert(endpoint_views(kept@) =~= endpoint_views(kept_before).push(v));
                },
            }
        }
        assert(all.take(all.len() as int) =~= all);
        let ghost a = kept@;
        let ghost b = routes@;
        kept.append(&mut routes);
        assert(endpoint_views(kept@) =~= endpoint_views(a) + endpoint_views(b));
        kept
    }

    /// Completes the endpoints of a repository, and adds those that only its
    /// references show. These have their library from the reference, which
    /// confirms nothing more: they are located only.
    pub fn resolve(
        &self,
        repository_id: &str,
        endpoints: Vec<ChannelEndpoint>,
        refs_by_file: &RefsByFile,
        config_candidates: &[(String, String)],
        sources_by_file: &TextMap<String>,
    ) -> (r: Vec<ChannelEndpoint>)
        ensures
            ({
                let rs = self.resolver;
                let refs = refs_by_file@;
                let cs = candidate_texts(config_candidates@);
                let ss = sources_by_file@;
                let first = all_completed(rs, endpoint_views(endpoints@), refs, cs, ss);
                let added = origins(rs, repository_id@, first, ss, refs_by_file.listing());
                endpoint_views(r@) == expanded(
                    rs,
                    first + all_located(rs, added, refs, cs, ss),
                    ss,
                )
            }),
    {
        let ghost rs = self.resolver;
        let ghost refs = refs_by_file@;
        let ghost cs = candidate_texts(config_candidates@);
        let ghost ss = sources_by_file@;
        let ghost first = all_completed(rs, endpoint_views(endpoints@), refs, cs, ss);
        let mut resolved = self.resolve_all(
            endpoints,
            refs_by_file,
            config_candidates,
            sources_by_file,
        );
        let synthesized = synthesize_from_packages(
            &self.resolver,
            repository_id,
            &resolved,
            refs_by_file,
            sources_by_file,
        );
        let mut added = self.locate_all(
            synthesized,
            refs_by_file,
            config_candidates,
            sources_by_file,
        );
        let ghost a = resolved@;
        let ghost b = added@;
        resolved.append(&mut added);
        assert(endpoint_views(resolved@) =~= endpoint_views(a) + endpoint_views(b));
        self.expand_loop_registered_routes(resolved, sources_by_file)
    }

    /// Completes each of the endpoints.
    fn resolve_all(
        &self,
        endpoints: Vec<ChannelEndpoint>,
        refs_by_file: &RefsByFile,
        config_candidates: &[(String, String)],
        sources_by_file: &TextMap<String>,
    ) -> (r: Vec<ChannelEndpoint>)
        ensures
            endpoint_views(r@) == all_completed(
                self.resolver,
                endpoint_views(endpoints@),
                refs_by_file@,
                candidate_texts(config_candidates@),
                sources_by_file@,
            ),
    {
        let ghost all = endpoint_views(endpoints@);
        let ghost want = all_completed(
            self.resolver,
            all,
            refs_by_file@,
            candidate_texts(config_candidates@),
            sources_by_file@,
        );
        let mut r: Vec<ChannelEndpoint> = Vec::new();
        assert(endpoint_views(r@) =~= want.take(0));
        for e in it: endpoints
            invariant
                it.seq() == endpoints@,
                all == endpoint_views(endpoints@),
                want == all_completed(
                    self.resolver,
                    all,
                    refs_by_file@,
                    candidate_texts(config_candidates@),
                    sources_by_file@,
                ),
                endpoint_views(r@) == want.take(it.index() as int),
        {
            let ghost i = it.index() as int;
            let ghost before = r@;
            assert(all[i] == e@);
            let one = self.resolve_one(e, refs_by_file, config_candidates, sources_by_file);
            let ghost w = one@;
            r.push(one);
            proof {
                assert(w == want[i]);
                assert(endpoint_views(r@) =~= endpoint_views(before).push(w));
                assert(want.take(i + 1) =~= want.take(i).push(w));
            }
        }
        assert(want.take(want.len() as int) =~= want);
        r
    }
    /// Locates each of the endpoints.
    fn locate_all(
        &self,
        endpoints: Vec<ChannelEndpoint>,
        refs_by_file: &RefsByFile,
        config_candidates: &[(String, String)],
        sources_by_file: &TextMap<String>,
    ) -> (r: Vec<ChannelEndpoint>)
        ensures
            endpoint_views(r@) == all_located(
                self.resolver,
                endpoint_views(endpoints@),
                refs_by_file@,
                candidate_texts(config_candidates@),
                sources_by_file@,
            ),
    {
        let ghost all = endpoint_views(endpoints@);
        let ghost want = all_located(
            self.resolver,
            all,
            refs_by_file@,
            candidate_texts(config_candidates@),
            sources_by_file@,
        );
        let mut r: Vec<ChannelEndpoint> = Vec::new();
        assert(endpoint_views(r@) =~= want.take(0));
        for e in it: endpoints
            invariant
                it.seq() == endpoints@,
                all == endpoint_views(endpoints@),
                want == all_located(
                    self.resolver,
                    all,
                    refs_by_file@,
                    candidate_texts(config_candidates@),
                    sources_by_file@,
                ),
                endpoint_views(r@) == want.take(it.index() as int),
        {
            let ghost i = it.index() as int;
            let ghost before = r@;
            assert(all[i] == e@);
            let one = self.locate(e, refs_by_file, config_candidates, sources_by_file);
            let ghost w = one@;
            r.push(one);
            proof {
                assert(w == want[i]);
                assert(endpoint_views(r@) =~= endpoint_views(before).push(w));
                assert(want.take(i + 1) =~= want.take(i).push(w));
            }
        }
        assert(want.take(want.len() as int) =~= want);
        r
    }}

/// The endpoint that one reference originates, of which `kind` is known and
/// nothing stands in the way.
fn originate<R: ChannelResolver>(
    resolver: &R,
    repository_id: &str,
    sources_by_file: &TextMap<String>,
    file: &str,
    r: &SymbolReference,
    package: &str,
    kind: RefKind,
) -> (e: Option<ChannelEndpoint>)
    requires
        origin(*r) == Some(kind@),
        opt_text(r.callee_package) == Some(package@),
    ensures
        e is None == is_barren(*resolver, sources_by_file@, file@, *r),
        e matches Some(x) ==> x@ == synthesized(
            *resolver,
            repository_id@,
            sources_by_file@,
            file@,
            *r,
        ),
{
    let line = r.reference_line;
    let role = kind.role();
    let source = sources_by_file.get(file);
    let call_arg = match source {
        Some(s) => resolver.channel_argument_at(s.as_str(), line),
        None => None,
    };
    assert(opt_text(call_arg) == argument_at(*resolver, sources_by_file@, file@, line));
    if call_arg.is_none() && read_loop_verb(r.callee_symbol.as_str()) {
        return None;
    }
    if let RefKind::Http { .. } = kind {
        if let Some(s) = source {
            if !resolver.is_http_route_call_at(s.as_str(), line) {
                return None;
            }
        }
    }
    let raw = match call_arg {
        Some(a) => a,
        None => channel_hint(r.callee_symbol.as_str()),
    };
    let mut id = "synth:".to_string();
    id.append(repository_id);
    id.append(":");
    id.append(file);
    id.append(":");
    id.append(decimal_text(line as u64).as_str());
    id.append(":");
    id.append(role.as_str());
    let path = match kind {
        RefKind::Http { .. } => strip_str_literal(raw.as_str()),
        RefKind::Messaging { .. } => None,
    };
    let mut endpoint = ChannelEndpoint::new(
        repository_id.to_string(),
        file.to_string(),
        line,
        kind.protocol(),
        role,
        raw.clone(),
        raw,
        PACKAGE_DRIVEN_CONFIDENCE,
        EndpointSource::Config,
    ).with_id(id).with_library(package).confirmed();
    if let RefKind::Http { verb } = kind {
        endpoint = endpoint.with_method(verb);
    }
    if let Some(scope) = &r.enclosing_scope {
        endpoint = endpoint.with_enclosing_symbol(scope.as_str());
    }
    match path {
        Some(p) => {
            endpoint = put_on_channel(endpoint, p);
        },
        None => {
            endpoint = endpoint.unresolved();
        },
    }
    Some(endpoint)
}

fn covered_site(existing: &[ChannelEndpoint], file: &str, line: u32, role: ChannelRole) -> (r: bool)
    ensures
        r == is_covered_site(endpoint_views(existing@), file@, line, role),
{
    let ghost vs = endpoint_views(existing@);
    let mut i: usize = 0;
    while i < existing.len()
        invariant
            i <= existing@.len(),
            vs == endpoint_views(existing@),
            forall|k: int| 0 <= k < i ==> !covers(#[trigger] vs[k], file@, line, role),
        decreases existing@.len() - i,
    {
        let e = &existing[i];
        assert(vs[i as int] == e@);
        if e.source == EndpointSource::TreeSitter && e.role == role && distance(e.line, line)
            <= CALL_SITE_LINE_WINDOW && same_text(e.file_path.as_str(), file) {
            assert(covers(vs[i as int], file@, line, role));
            return true;
        }
        i += 1;
    }
    false
}

/// Whether the pair stands in the list.
fn was_seen(seen: &[(u32, ChannelRole)], line: u32, role: ChannelRole) -> (r: bool)
    ensures
        r == seen@.contains((line, role)),
{
    let mut i: usize = 0;
    while i < seen.len()
        invariant
            i <= seen@.len(),
            forall|k: int| 0 <= k < i ==> seen@[k] != (line, role),
        decreases seen@.len() - i,
    {
        if seen[i].0 == line && seen[i].1 == role {
            assert(seen@[i as int] == (line, role));
            return true;
        }
        i += 1;
    }
    false
}

fn originate_in_file<R: ChannelResolver>(
    resolver: &R,
    repository_id: &str,
    existing: &[ChannelEndpoint],
    sources_by_file: &TextMap<String>,
    file: &str,
    refs: &[SymbolReference],
) -> (r: Vec<ChannelEndpoint>)
    ensures
        endpoint_views(r@) == file_origins(
            *resolver,
            repository_id@,
            endpoint_views(existing@),
            sources_by_file@,
            file@,
            refs@,
        ),
{
    let ghost rs = *resolver;
    let ghost id = repository_id@;
    let ghost ex = endpoint_views(existing@);
    let ghost ss = sources_by_file@;
    let mut r: Vec<ChannelEndpoint> = Vec::new();
    let mut seen: Vec<(u32, ChannelRole)> = Vec::new();
    let mut i: usize = 0;
    assert(endpoint_views(r@) =~= file_origins(rs, id, ex, ss, file@, refs@.take(0)));
    while i < refs.len()
        invariant
            i <= refs@.len(),
            rs == *resolver,
            id == repository_id@,
            ex == endpoint_views(existing@),
            ss == sources_by_file@,
            endpoint_views(r@) == file_origins(rs, id, ex, ss, file@, refs@.take(i as int)),
            forall|l: u32, o: ChannelRole| #[trigger]
                seen@.contains((l, o)) <==> seen_before(refs@.take(i as int), l, o),
        decreases refs@.len() - i,
    {
        let reference = &refs[i];
        let ghost done = refs@.take(i as int);
        let ghost next = refs@.take(i + 1);
        let ghost before = r@;
        let ghost seen_old = seen@;
        proof {
            assert(next.drop_last() =~= done);
            assert(next.last() == *reference);
            assert forall|l: u32, o: ChannelRole| #[trigger]
                seen_before(next, l, o) <==> seen_before(done, l, o) || (origin(*reference) is Some
                    && origin(*reference)->0.role_of() == o && reference.reference_line == l) by {
                if seen_before(done, l, o) {
                    let k = choose|k: int|
                        0 <= k < done.len() && origin(#[trigger] done[k]) is Some && origin(
                            done[k],
                        )->0.role_of() == o && done[k].reference_line == l;
                    assert(next[k] == done[k]);
                }
                if origin(*reference) is Some && origin(*reference)->0.role_of() == o
                    && reference.reference_line == l {
                    assert(next[i as int] == *reference);
                }
                if seen_before(next, l, o) {
                    let k = choose|k: int|
                        0 <= k < next.len() && origin(#[trigger] next[k]) is Some && origin(
                            next[k],
                        )->0.role_of() == o && next[k].reference_line == l;
                    if k < done.len() {
                        assert(done[k] == next[k]);
                    }
                }
            }
        }
        if let Some(package) = &reference.callee_package {
            if let Some(kind) = classify_ref(package.as_str(), reference.callee_symbol.as_str()) {
                let role = kind.role();
                let line = reference.reference_line;
                let fresh = !was_seen(&seen, line, role);
                if fresh {
                    seen.push((line, role));
                    proof {
                        assert forall|l: u32, o: ChannelRole| #[trigger]
                            seen@.contains((l, o)) <==> seen_old.contains((l, o)) || (l == line && o
                                == role) by {
                            if seen_old.contains((l, o)) {
                                let k = choose|k: int|
                                    0 <= k < seen_old.len() && seen_old[k] == (l, o);
                                assert(seen@[k] == (l, o));
                            }
                            if l == line && o == role {
                                assert(seen@[seen_old.len() as int] == (l, o));
                            }
                        }
                    }
                }
                if fresh && !covered_site(existing, file, line, role) {
                    let made = originate(
                        resolver,
                        repository_id,
                        sources_by_file,
                        file,
                        reference,
                        package.as_str(),
                        kind,
                    );
                    if let Some(e) = made {
                        let ghost v = e@;
                        r.push(e);
                        assert(endpoint_views(r@) =~= endpoint_views(before).push(v));
                    }
                }
            }
        }
        i += 1;
    }
    assert(refs@.take(i as int) =~= refs@);
    r
}

/// The endpoints that references into known libraries originate where the
/// extractor found none.
pub fn synthesize_from_packages<R: ChannelResolver>(
    resolver: &R,
    repository_id: &str,
    existing: &[ChannelEndpoint],
    refs_by_file: &RefsByFile,
    sources_by_file: &TextMap<String>,
) -> (r: Vec<ChannelEndpoint>)
    ensures
        endpoint_views(r@) == origins(
            *resolver,
            repository_id@,
            endpoint_views(existing@),
            sources_by_file@,
            refs_by_file.listing(),
        ),
{
    let ghost rs = *resolver;
    let ghost id = repository_id@;
    let ghost ex = endpoint_views(existing@);
    let ghost ss = sources_by_file@;
    let ghost files = refs_by_file.listing();
    let mut r: Vec<ChannelEndpoint> = Vec::new();
    let mut i: usize = 0;
    let n: usize = refs_by_file.len();
    assert(endpoint_views(r@) =~= origins(rs, id, ex, ss, files.take(0)));
    while i < n
        invariant
            i <= n,
            n == files.len(),
            files == refs_by_file.listing(),
            rs == *resolver,
            id == repository_id@,
            ex == endpoint_views(existing@),
            ss == sources_by_file@,
            endpoint_views(r@) == origins(rs, id, ex, ss, files.take(i as int)),
        decreases n - i,
    {
        let entry = refs_by_file.at(i);
        let ghost before = r@;
        proof {
            assert(files.take(i + 1).drop_last() =~= files.take(i as int));
            assert(files.take(i + 1).last() == *entry);
        }
        let mut more = originate_in_file(
            resolver,
            repository_id,
            existing,
            sources_by_file,
            entry.key.as_str(),
            &entry.value,
        );
        let ghost m = more@;
        r.append(&mut more);
        assert(endpoint_views(r@) =~= endpoint_views(before) + endpoint_views(m));
        i += 1;
    }
    assert(files.take(i as int) =~= files);
    r
}

} // verus!

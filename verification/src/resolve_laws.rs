//! What the completion of channel endpoints owes to the references and sources
//! it reads.

use vstd::prelude::*;
use crate::channel_routes::{normal_route, url_parts};
use crate::channels::{ChannelRole, EndpointView, Protocol};
use crate::domain::SymbolReference;
use crate::resolve_channels::{
    ChannelResolver, apart, backing, backs, covers, expanded, file_origins, hint_text, holds_routes,
    is_barren, is_consumer_type, is_covered_site, is_read_loop, is_server_package, last_piece,
    literal_text, located, normal_channel, origin, package_protocol, plain_endpoints, refs_in,
    route_of, routes_of, scope_at, seen_before, symbol_role, symbol_verb, synthesized, table_paths,
    table_routes, verb_of, with_backing, with_pattern,
};
use crate::text::{
    contains_text, find_text, lacks, lemma_find_from, lemma_rfind_char, occurs_at, opt_text,
    replace_char, rfind_char, trim, trim_start,
};
use crate::unicode::{ascii_lower, is_ascii_upper};

verus! {

/// At most two lines lie between the places.
pub open spec fn within_two_lines(a: u32, b: u32) -> bool {
    a <= b + 2 && b <= a + 2
}

proof fn lemma_lower_add(a: Seq<char>, b: Seq<char>)
    ensures
        ascii_lower(a + b) == ascii_lower(a) + ascii_lower(b),
{
    assert(ascii_lower(a + b) =~= ascii_lower(a) + ascii_lower(b));
}

proof fn lemma_contains_part(front: Seq<char>, part: Seq<char>, back: Seq<char>)
    ensures
        contains_text(front + part + back, part),
{
    let s = front + part + back;
    let n = front.len() as int;
    assert(s.subrange(n, n + part.len()) =~= part);
    lemma_find_from(s, part, 0);
    assert(occurs_at(s, part, n));
}

/// A package whose name holds that of a messaging system, in capitals or not,
/// speaks its protocol.
pub proof fn lemma_package_protocols(front: Seq<char>, back: Seq<char>)
    ensures
        package_protocol(front + "kafka"@ + back) == Some(Protocol::Kafka),
        package_protocol(front + "mqtt"@ + back) == Some(Protocol::Mqtt) || package_protocol(
            front + "mqtt"@ + back,
        ) == Some(Protocol::Kafka),
        package_protocol("mqtt"@) == Some(Protocol::Mqtt),
        package_protocol("amqplib"@) == Some(Protocol::Amqp),
        package_protocol("rabbit"@) == Some(Protocol::Amqp),
        package_protocol("grpc"@) == Some(Protocol::Grpc),
        package_protocol("axios"@) is None,
        is_server_package(front + "express"@ + back),
        is_server_package(front + "fastify"@ + back),
{
    lemma_lower_word("kafka"@, front, back);
    lemma_lower_word("mqtt"@, front, back);
    lemma_lower_word("express"@, front, back);
    lemma_lower_word("fastify"@, front, back);
    reveal_strlit("kafka");
    reveal_strlit("rdkafka");
    reveal_strlit("mqtt");
    reveal_strlit("amqp");
    reveal_strlit("amqplib");
    reveal_strlit("rabbit");
    reveal_strlit("grpc");
    reveal_strlit("axios");
    reveal_strlit("express");
    reveal_strlit("fastify");
    lemma_small("kafka"@);
    lemma_small("mqtt"@);
    lemma_small("amqplib"@);
    lemma_small("rabbit"@);
    lemma_small("grpc"@);
    lemma_small("axios"@);
    lemma_small("express"@);
    lemma_small("fastify"@);
    assert(contains_text("mqtt"@, "mqtt"@)) by {
        lemma_contains_part(Seq::empty(), "mqtt"@, Seq::empty());
        assert(Seq::<char>::empty() + "mqtt"@ + Seq::<char>::empty() =~= "mqtt"@);
    }
    assert(contains_text("rabbit"@, "rabbit"@)) by {
        lemma_contains_part(Seq::empty(), "rabbit"@, Seq::empty());
        assert(Seq::<char>::empty() + "rabbit"@ + Seq::<char>::empty() =~= "rabbit"@);
    }
    assert(contains_text("grpc"@, "grpc"@)) by {
        lemma_contains_part(Seq::empty(), "grpc"@, Seq::empty());
        assert(Seq::<char>::empty() + "grpc"@ + Seq::<char>::empty() =~= "grpc"@);
    }
    assert(contains_text("amqplib"@, "amqp"@)) by {
        lemma_contains_part(Seq::empty(), "amqp"@, "lib"@);
        reveal_strlit("lib");
        assert(Seq::<char>::empty() + "amqp"@ + "lib"@ =~= "amqplib"@);
    }
    lemma_lacks_part("mqtt"@, "kafka"@, 0);
    lemma_lacks_part("mqtt"@, "rdkafka"@, 2);
    lemma_lacks_part("amqplib"@, "kafka"@, 0);
    lemma_lacks_part("amqplib"@, "rdkafka"@, 2);
    lemma_lacks_part("amqplib"@, "mqtt"@, 2);
    lemma_lacks_part("rabbit"@, "kafka"@, 0);
    lemma_lacks_part("rabbit"@, "rdkafka"@, 2);
    lemma_lacks_part("rabbit"@, "mqtt"@, 0);
    lemma_lacks_part("grpc"@, "kafka"@, 0);
    lemma_lacks_part("grpc"@, "rdkafka"@, 2);
    lemma_lacks_part("grpc"@, "mqtt"@, 0);
    lemma_lacks_part("grpc"@, "amqp"@, 0);
    lemma_lacks_part("grpc"@, "rabbit"@, 1);
    lemma_lacks_part("axios"@, "kafka"@, 0);
    lemma_lacks_part("axios"@, "rdkafka"@, 2);
    lemma_lacks_part("axios"@, "mqtt"@, 0);
    lemma_lacks_part("axios"@, "amqp"@, 1);
    lemma_lacks_part("axios"@, "rabbit"@, 0);
    lemma_lacks_part("axios"@, "grpc"@, 0);
}

/// A text that lacks a character of the part does not hold the part.
proof fn lemma_lacks_part(s: Seq<char>, part: Seq<char>, k: int)
    requires
        0 <= k < part.len(),
        forall|i: int| 0 <= i < s.len() ==> #[trigger] s[i] != part[k],
    ensures
        !contains_text(s, part),
{
    lemma_find_from(s, part, 0);
    if contains_text(s, part) {
        let i = find_text(s, part);
        assert(s.subrange(i, i + part.len())[k] == s[i + k]);
    }
}

proof fn lemma_small(s: Seq<char>)
    requires
        forall|i: int| 0 <= i < s.len() ==> !is_ascii_upper(#[trigger] s[i]),
    ensures
        ascii_lower(s) == s,
{
    assert(ascii_lower(s) =~= s);
}

proof fn lemma_lower_word(word: Seq<char>, front: Seq<char>, back: Seq<char>)
    ensures
        (forall|i: int| 0 <= i < word.len() ==> !is_ascii_upper(#[trigger] word[i]))
            ==> contains_text(ascii_lower(front + word + back), word),
{
    if forall|i: int| 0 <= i < word.len() ==> !is_ascii_upper(#[trigger] word[i]) {
        lemma_small(word);
        lemma_lower_add(front + word, back);
        lemma_lower_add(front, word);
        lemma_contains_part(ascii_lower(front), word, ascii_lower(back));
    }
}

proof fn lemma_method(receiver: Seq<char>, m: Seq<char>)
    requires
        lacks(m, '#'),
    ensures
        rfind_char(receiver + "#"@ + m, '#') == receiver.len(),
        (receiver + "#"@ + m).skip(receiver.len() as int + 1) == m,
        (receiver + "#"@ + m).take(receiver.len() as int) == receiver,
{
    reveal_strlit("#");
    let s = receiver + "#"@ + m;
    let n = receiver.len() as int;
    lemma_rfind_char(s, '#');
    assert(s[n] == '#');
    assert forall|k: int| n < k < s.len() implies s[k] != '#' by {
        assert(s[k] == m[k - n - 1]);
    }
    assert(s.skip(n + 1) =~= m);
    assert(s.take(n) =~= receiver);
}

/// What a method of a client says of the role: sending makes a producer,
/// subscribing and consuming a consumer, connecting and running a consumer only
/// where the receiver is one, and anything else says nothing.
pub proof fn lemma_method_roles(receiver: Seq<char>)
    ensures
        symbol_role(receiver + "#"@ + "send"@) == Some(ChannelRole::Producer),
        symbol_role(receiver + "#"@ + "produce"@) == Some(ChannelRole::Producer),
        symbol_role(receiver + "#"@ + "publish"@) == Some(ChannelRole::Producer),
        symbol_role(receiver + "#"@ + "emit"@) == Some(ChannelRole::Producer),
        symbol_role(receiver + "#"@ + "subscribe"@) == Some(ChannelRole::Consumer),
        symbol_role(receiver + "#"@ + "consume"@) == Some(ChannelRole::Consumer),
        symbol_role(receiver + "#"@ + "connect"@) == if is_consumer_type(receiver) {
            Some(ChannelRole::Consumer)
        } else {
            None
        },
        symbol_role(receiver + "#"@ + "close"@) is None,
        symbol_role(receiver + "#"@ + "commit"@) is None,
        is_consumer_type("Consumer"@),
        !is_consumer_type("Producer"@),
{
    reveal_strlit("send");
    reveal_strlit("produce");
    reveal_strlit("publish");
    reveal_strlit("emit");
    reveal_strlit("batchsend");
    reveal_strlit("subscribe");
    reveal_strlit("consume");
    reveal_strlit("consumeone");
    reveal_strlit("eachmessage");
    reveal_strlit("eachbatch");
    reveal_strlit("connect");
    reveal_strlit("run");
    reveal_strlit("each");
    reveal_strlit("close");
    reveal_strlit("commit");
    lemma_method(receiver, "send"@);
    lemma_method(receiver, "produce"@);
    lemma_method(receiver, "publish"@);
    lemma_method(receiver, "emit"@);
    lemma_method(receiver, "subscribe"@);
    lemma_method(receiver, "consume"@);
    lemma_method(receiver, "connect"@);
    lemma_method(receiver, "close"@);
    lemma_method(receiver, "commit"@);
    lemma_small("send"@);
    lemma_small("produce"@);
    lemma_small("publish"@);
    lemma_small("emit"@);
    lemma_small("subscribe"@);
    lemma_small("consume"@);
    lemma_small("connect"@);
    lemma_small("close"@);
    lemma_small("commit"@);
    // Words of one length differ in some letter.
    assert("connect"@[0] == 'c' && "produce"@[0] == 'p' && "publish"@[0] == 'p');
    assert("consume"@[3] == 's' && "connect"@[3] == 'n');
    assert("close"@.len() == 5 && "commit"@.len() == 6 && "connect"@.len() == 7);
    assert("subscribe"@[0] == 's' && "batchsend"@[0] == 'b' && "eachbatch"@[0] == 'e');
    reveal_strlit("Consumer");
    reveal_strlit("Producer");
    reveal_strlit("consumer");
    reveal_strlit("producer");
    reveal_strlit("publisher");
    reveal_strlit("subscriber");
    assert(ascii_lower("Consumer"@) =~= "consumer"@);
    assert(ascii_lower("Producer"@) =~= "producer"@);
    assert(contains_text("consumer"@, "consumer"@)) by {
        lemma_contains_part(Seq::empty(), "consumer"@, Seq::empty());
        assert(Seq::<char>::empty() + "consumer"@ + Seq::<char>::empty() =~= "consumer"@);
    }
    assert(contains_text("producer"@, "producer"@)) by {
        lemma_contains_part(Seq::empty(), "producer"@, Seq::empty());
        assert(Seq::<char>::empty() + "producer"@ + Seq::<char>::empty() =~= "producer"@);
    }
    assert("producer"@[0] == 'p' && "publisher"@[0] == 'p');
    lemma_lacks_part("consumer"@, "producer"@, 0);
    lemma_lacks_part("consumer"@, "publisher"@, 0);
}

proof fn lemma_last_piece(receiver: Seq<char>, m: Seq<char>)
    requires
        lacks(m, '#') && lacks(m, '.') && lacks(m, ':'),
    ensures
        last_piece(receiver + "#"@ + m, '#', '.', ':') == m,
{
    reveal_strlit("#");
    let s = receiver + "#"@ + m;
    let n = receiver.len() as int;
    let r = replace_char(replace_char(s, '.', '#'), ':', '#');
    lemma_rfind_char(r, '#');
    assert(r[n] == '#');
    assert forall|k: int| n < k < r.len() implies r[k] != '#' by {
        assert(s[k] == m[k - n - 1]);
    }
    assert(s.skip(n + 1) =~= m);
}

proof fn lemma_verb(receiver: Seq<char>, m: Seq<char>)
    requires
        lacks(m, '#') && lacks(m, '.') && lacks(m, ':'),
        forall|i: int| 0 <= i < m.len() ==> !is_ascii_upper(#[trigger] m[i]),
    ensures
        symbol_verb(receiver + "#"@ + m) == if holds_routes(receiver) {
            verb_of(m)
        } else {
            None
        },
{
    lemma_method(receiver, m);
    lemma_last_piece(receiver, m);
    lemma_small(m);
}

/// What a method of a router says of the request that it answers. A method of
/// anything else answers none, whatever its name.
pub proof fn lemma_route_verbs(receiver: Seq<char>)
    ensures
        holds_routes(receiver) ==> {
            &&& symbol_verb(receiver + "#"@ + "get"@) == Some("GET"@)
            &&& symbol_verb(receiver + "#"@ + "post"@) == Some("POST"@)
            &&& symbol_verb(receiver + "#"@ + "put"@) == Some("PUT"@)
            &&& symbol_verb(receiver + "#"@ + "delete"@) == Some("DELETE"@)
            &&& symbol_verb(receiver + "#"@ + "patch"@) == Some("PATCH"@)
            &&& symbol_verb(receiver + "#"@ + "head"@) == Some("HEAD"@)
            &&& symbol_verb(receiver + "#"@ + "options"@) == Some("OPTIONS"@)
            &&& symbol_verb(receiver + "#"@ + "all"@) == Some("ANY"@)
            &&& symbol_verb(receiver + "#"@ + "route"@) == Some("ANY"@)
            &&& symbol_verb(receiver + "#"@ + "use"@) is None
        },
        !holds_routes(receiver) ==> symbol_verb(receiver + "#"@ + "get"@) is None,
        holds_routes("Router"@),
        !holds_routes("Request"@),
{
    reveal_strlit("get");
    reveal_strlit("post");
    reveal_strlit("put");
    reveal_strlit("delete");
    reveal_strlit("patch");
    reveal_strlit("head");
    reveal_strlit("options");
    reveal_strlit("all");
    reveal_strlit("route");
    reveal_strlit("use");
    lemma_verb(receiver, "get"@);
    lemma_verb(receiver, "post"@);
    lemma_verb(receiver, "put"@);
    lemma_verb(receiver, "delete"@);
    lemma_verb(receiver, "patch"@);
    lemma_verb(receiver, "head"@);
    lemma_verb(receiver, "options"@);
    lemma_verb(receiver, "all"@);
    lemma_verb(receiver, "route"@);
    lemma_verb(receiver, "use"@);
    assert("get"@.len() == 3 && "put"@.len() == 3 && "all"@.len() == 3 && "use"@.len() == 3);
    assert("get"@[0] == 'g' && "put"@[0] == 'p' && "all"@[0] == 'a' && "use"@[0] == 'u');
    assert("post"@.len() == 4 && "head"@.len() == 4 && "post"@[0] == 'p' && "head"@[0] == 'h');
    assert("patch"@.len() == 5 && "route"@.len() == 5 && "patch"@[0] == 'p' && "route"@[0] == 'r');
    assert("delete"@.len() == 6 && "options"@.len() == 7);
    reveal_strlit("Router");
    reveal_strlit("Request");
    reveal_strlit("router");
    reveal_strlit("request");
    reveal_strlit("response");
    reveal_strlit("incomingmessage");
    reveal_strlit("reply");
    assert(ascii_lower("Router"@) =~= "router"@);
    assert(ascii_lower("Request"@) =~= "request"@);
    assert(contains_text("router"@, "router"@)) by {
        lemma_contains_part(Seq::empty(), "router"@, Seq::empty());
        assert(Seq::<char>::empty() + "router"@ + Seq::<char>::empty() =~= "router"@);
    }
    assert(contains_text("request"@, "request"@)) by {
        lemma_contains_part(Seq::empty(), "request"@, Seq::empty());
        assert(Seq::<char>::empty() + "request"@ + Seq::<char>::empty() =~= "request"@);
    }
    assert("request"@[2] == 'q' && "response"@[2] == 's' && "incomingmessage"@[0] == 'i'
        && "reply"@[2] == 'p');
    lemma_lacks_part("router"@, "request"@, 2);
    lemma_lacks_part("router"@, "response"@, 2);
    lemma_lacks_part("router"@, "incomingmessage"@, 0);
    lemma_lacks_part("router"@, "reply"@, 2);
}

/// A topic whose name is put together is known by its pattern, and nothing else of
/// the endpoint changes. One whose name is known keeps it.
pub proof fn lemma_pattern_names_channel<R: ChannelResolver>(
    resolver: R,
    e: EndpointView,
    candidates: Seq<(Seq<char>, Seq<char>)>,
    sources: Map<Seq<char>, String>,
)
    ensures
        ({
            let r = with_pattern(resolver, e, candidates, sources);
            let p = resolver.topic_pattern(
                e.channel_raw,
                sources[e.file_path]@,
                e.line,
                candidates,
            );
            &&& e.resolved || !sources.contains_key(e.file_path) || p is None ==> r == e
            &&& !e.resolved && sources.contains_key(e.file_path) && p is Some ==> r.resolved
                && r.pattern && r.channel_raw == p->Some_0
            &&& r.id == e.id && r.file_path == e.file_path && r.line == e.line && r.role == e.role
                && r.protocol == e.protocol && r.repository_id == e.repository_id && r.confidence
                == e.confidence
        }),
{
}

/// What stands between a pair of equal quotes is the literal.
pub proof fn lemma_literal(q: char, inner: Seq<char>)
    requires
        q == '"' || q == '\'' || q == '`',
    ensures
        literal_text(seq![q] + inner + seq![q]) == Some(inner),
{
    let s = seq![q] + inner + seq![q];
    assert(s[0] == q && s.last() == q);
    assert(trim_start(s) == s);
    assert(trim(s) == s);
    assert(s.subrange(1, s.len() - 1) =~= inner);
}

proof fn lemma_backing(refs: Seq<SymbolReference>, line: u32)
    ensures
        ({
            let b = backing(refs, line);
            &&& -1 <= b < refs.len()
            &&& b >= 0 ==> backs(refs[b], line)
            &&& forall|i: int|
                0 <= i < refs.len() && backs(#[trigger] refs[i], line) ==> b >= 0 && apart(
                    refs[b].reference_line,
                    line,
                ) <= apart(refs[i].reference_line, line)
        }),
    decreases refs.len(),
{
    if refs.len() > 0 {
        let d = refs.drop_last();
        lemma_backing(d, line);
        let b = backing(refs, line);
        assert forall|i: int| 0 <= i < refs.len() && backs(#[trigger] refs[i], line) implies b >= 0
            && apart(refs[b].reference_line, line) <= apart(refs[i].reference_line, line) by {
            if i < d.len() {
                assert(d[i] == refs[i]);
                assert(backs(d[i], line));
            }
        }
    }
}

/// An endpoint is confirmed by a reference of its file within two lines whose
/// package speaks its protocol: then it carries that package as its library and
/// a confidence of nine tenths, and nothing else of it changes. No messaging
/// reference is nearer. Where none is within two lines it stays as it is.
pub proof fn lemma_backing_confirms(
    e: EndpointView,
    refs: Map<Seq<char>, Vec<SymbolReference>>,
)
    ensures
        ({
            let r = with_backing(e, refs);
            let here = refs_in(refs, e.file_path);
            &&& r == e || (r.confirmed && r.confidence == 900_000 && r == EndpointView {
                library: r.library,
                confirmed: true,
                confidence: 900_000,
                ..e
            } && exists|i: int|
                0 <= i < here.len() && within_two_lines(
                    (#[trigger] here[i]).reference_line,
                    e.line,
                ) && here[i].callee_package is Some && r.library == Some(
                    here[i].callee_package->Some_0@,
                ) && package_protocol(here[i].callee_package->Some_0@) == Some(e.protocol))
            &&& (forall|i: int|
                0 <= i < here.len() ==> !within_two_lines(
                    (#[trigger] here[i]).reference_line,
                    e.line,
                )) ==> r == e
            &&& forall|i: int|
                0 <= i < here.len() && (#[trigger] here[i]).reference_line == e.line
                    && here[i].callee_package is Some && package_protocol(
                    here[i].callee_package->Some_0@,
                ) == Some(e.protocol) && (forall|j: int|
                    0 <= j < here.len() && (#[trigger] here[j]).reference_line == e.line
                        && here[j].callee_package is Some && package_protocol(
                        here[j].callee_package->Some_0@,
                    ) is Some ==> package_protocol(here[j].callee_package->Some_0@) == Some(
                        e.protocol,
                    )) ==> r.confirmed && r.confidence == 900_000
        }),
{
    let here = refs_in(refs, e.file_path);
    let b = backing(here, e.line);
    lemma_backing(here, e.line);
    if b >= 0 {
        assert(backs(here[b], e.line));
        assert(within_two_lines(here[b].reference_line, e.line));
    }
    assert forall|i: int|
        0 <= i < here.len() && (#[trigger] here[i]).reference_line == e.line
            && here[i].callee_package is Some && package_protocol(here[i].callee_package->Some_0@)
            == Some(e.protocol) && (forall|j: int|
            0 <= j < here.len() && (#[trigger] here[j]).reference_line == e.line
                && here[j].callee_package is Some && package_protocol(
                here[j].callee_package->Some_0@,
            ) is Some ==> package_protocol(here[j].callee_package->Some_0@) == Some(
                e.protocol,
            )) implies with_backing(e, refs).confirmed && with_backing(e, refs).confidence
        == 900_000 by {
        assert(backs(here[i], e.line));
        assert(apart(here[i].reference_line, e.line) == 0);
        assert(here[b].reference_line == e.line);
    }
}

/// An endpoint whose channel its configuration names is put on that channel, with
/// the variable behind it; a topic is taken as it is written, and a route in its
/// normal form. Where nothing names the channel, it stays unknown.
pub proof fn lemma_config_names_channel<R: ChannelResolver>(
    resolver: R,
    e: EndpointView,
    refs: Map<Seq<char>, Vec<SymbolReference>>,
    candidates: Seq<(Seq<char>, Seq<char>)>,
    sources: Map<Seq<char>, String>,
    scope: Option<Seq<char>>,
)
    requires
        !e.resolved,
        scope == scope_at(refs_in(refs, e.file_path), e.line),
    ensures
        ({
            let r = located(resolver, e, refs, candidates, sources);
            let found = resolver.config_value(e.channel_raw, scope, candidates);
            &&& found matches Some((value, var)) ==> r.resolved && r.channel_raw == value && (!(
            e.protocol is Http) ==> r.channel_normalized == value) && (e.protocol is Http
                ==> r.channel_normalized == normal_route(url_parts(value).1)) && (var is Some
                ==> r.env_var == var)
            &&& found is None && !sources.contains_key(e.file_path) ==> r == e
            &&& r.id == e.id && r.file_path == e.file_path && r.line == e.line && r.role == e.role
                && r.protocol == e.protocol && r.confidence == e.confidence
        }),
{
}

/// The scope at a line is that of a reference within two lines.
pub proof fn lemma_scope_at(refs: Seq<SymbolReference>, line: u32)
    ensures
        scope_at(refs, line) matches Some(s) ==> exists|i: int|
            0 <= i < refs.len() && within_two_lines((#[trigger] refs[i]).reference_line, line)
                && opt_text(refs[i].enclosing_scope) == Some(s),
        scope_at(refs, line) is None ==> forall|i: int|
            0 <= i < refs.len() && within_two_lines((#[trigger] refs[i]).reference_line, line)
                ==> refs[i].enclosing_scope is None,
    decreases refs.len(),
{
    if refs.len() > 0 {
        let d = refs.drop_last();
        lemma_scope_at(d, line);
        if scope_at(d, line) is Some {
            let s = scope_at(d, line)->Some_0;
            let i = choose|i: int|
                0 <= i < d.len() && within_two_lines((#[trigger] d[i]).reference_line, line)
                    && opt_text(d[i].enclosing_scope) == Some(s);
            assert(refs[i] == d[i]);
        } else {
            assert(refs[refs.len() - 1] == refs.last());
            assert forall|i: int|
                0 <= i < d.len() && within_two_lines(
                    (#[trigger] refs[i]).reference_line,
                    line,
                ) implies refs[i].enclosing_scope is None by {
                assert(d[i] == refs[i]);
            }
        }
    }
}

/// The endpoint was made by a reference of the file: it stands on its line, and
/// carries its package, its scope, and a confidence of six tenths.
pub open spec fn originates(x: EndpointView, r: SymbolReference, file: Seq<char>) -> bool {
    &&& x.file_path == file
    &&& x.line == r.reference_line
    &&& r.callee_package is Some
    &&& x.library == Some(r.callee_package->Some_0@)
    &&& x.enclosing_symbol == opt_text(r.enclosing_scope)
    &&& x.confirmed
    &&& x.confidence == 600_000
    &&& x.source is Config
    &&& x.protocol is Http ==> x.role is Consumer && is_server_package(r.callee_package->Some_0@)
    &&& !(x.protocol is Http) ==> !x.resolved && package_protocol(r.callee_package->Some_0@)
        == Some(x.protocol) && symbol_role(r.callee_symbol@) == Some(x.role)
}

proof fn lemma_package_is_no_http(package: Seq<char>)
    ensures
        package_protocol(package) != Some(Protocol::Http),
{
}

/// The endpoints that references originate: each is made by a reference of its
/// file, in the repository, where the extractor found none of its role within
/// two lines.
pub proof fn lemma_file_origins_fields<R: ChannelResolver>(
    resolver: R,
    repository_id: Seq<char>,
    existing: Seq<EndpointView>,
    sources: Map<Seq<char>, String>,
    file: Seq<char>,
    refs: Seq<SymbolReference>,
    k: int,
)
    requires
        0 <= k < file_origins(resolver, repository_id, existing, sources, file, refs).len(),
    ensures
        ({
            let x = file_origins(resolver, repository_id, existing, sources, file, refs)[k];
            &&& x.repository_id == repository_id
            &&& exists|i: int| 0 <= i < refs.len() && originates(x, #[trigger] refs[i], file)
            &&& forall|j: int|
                0 <= j < existing.len() ==> !((#[trigger] existing[j]).source is TreeSitter
                    && existing[j].file_path == file && existing[j].role == x.role
                    && within_two_lines(existing[j].line, x.line))
        }),
    decreases refs.len(),
{
    let d = refs.drop_last();
    let before = file_origins(resolver, repository_id, existing, sources, file, d);
    let all = file_origins(resolver, repository_id, existing, sources, file, refs);
    if refs.len() > 0 {
        if k < before.len() {
            lemma_file_origins_fields(resolver, repository_id, existing, sources, file, d, k);
            let x = before[k];
            assert(all[k] == x);
            let i = choose|i: int| 0 <= i < d.len() && originates(x, #[trigger] d[i], file);
            assert(originates(x, refs[i], file));
        } else {
            let r = refs.last();
            let x = all[k];
            assert(x == synthesized(resolver, repository_id, sources, file, r));
            lemma_package_is_no_http(r.callee_package->Some_0@);
            assert(originates(x, refs[refs.len() - 1], file));
            assert forall|j: int| 0 <= j < existing.len() implies !((
            #[trigger] existing[j]).source is TreeSitter && existing[j].file_path == file
                && existing[j].role == x.role && within_two_lines(existing[j].line, x.line)) by {
                if existing[j].source is TreeSitter && existing[j].file_path == file
                    && existing[j].role == x.role && within_two_lines(existing[j].line, x.line) {
                    assert(covers(existing[j], file, x.line, x.role));
                }
            }
        }
    }
}

/// A call into a messaging library whose argument the source shows, or that is no
/// loop over what was named before, originates an endpoint of its role on its
/// line, unless the extractor found one within two lines.
pub proof fn lemma_calls_originate<R: ChannelResolver>(
    resolver: R,
    repository_id: Seq<char>,
    existing: Seq<EndpointView>,
    sources: Map<Seq<char>, String>,
    file: Seq<char>,
    refs: Seq<SymbolReference>,
    i: int,
)
    requires
        0 <= i < refs.len(),
        refs[i].callee_package is Some,
        package_protocol(refs[i].callee_package->Some_0@) is Some,
        !is_server_package(refs[i].callee_package->Some_0@),
        symbol_role(refs[i].callee_symbol@) is Some,
        !is_read_loop(refs[i].callee_symbol@),
        forall|j: int|
            0 <= j < existing.len() ==> !((#[trigger] existing[j]).source is TreeSitter
                && existing[j].file_path == file && within_two_lines(
                existing[j].line,
                refs[i].reference_line,
            )),
        forall|j: int|
            0 <= j < refs.len() && j != i ==> (#[trigger] refs[j]).reference_line
                != refs[i].reference_line,
    ensures
        exists|k: int|
            0 <= k < file_origins(resolver, repository_id, existing, sources, file, refs).len()
                && is_origin_at(
                #[trigger] file_origins(resolver, repository_id, existing, sources, file, refs)[k],
                file,
                refs[i],
            ),
    decreases refs.len(),
{
    let d = refs.drop_last();
    let before = file_origins(resolver, repository_id, existing, sources, file, d);
    let all = file_origins(resolver, repository_id, existing, sources, file, refs);
    if i < d.len() {
        assert(d[i] == refs[i]);
        assert forall|j: int| 0 <= j < d.len() && j != i implies (#[trigger] d[j]).reference_line
            != d[i].reference_line by {
            assert(refs[j].reference_line != refs[i].reference_line);
        }
        lemma_calls_originate(resolver, repository_id, existing, sources, file, d, i);
        let k = choose|k: int|
            0 <= k < before.len() && is_origin_at(#[trigger] before[k], file, d[i]);
        assert(all[k] == before[k]);
    } else {
        let r = refs.last();
        let kind = origin(r)->Some_0;
        assert(origin(r) is Some);
        assert(!is_covered_site(existing, file, r.reference_line, kind.role_of())) by {
            if is_covered_site(existing, file, r.reference_line, kind.role_of()) {
                let j = choose|j: int|
                    0 <= j < existing.len() && covers(
                        #[trigger] existing[j],
                        file,
                        r.reference_line,
                        kind.role_of(),
                    );
                assert(within_two_lines(existing[j].line, r.reference_line));
            }
        }
        assert(!seen_before(d, r.reference_line, kind.role_of())) by {
            if seen_before(d, r.reference_line, kind.role_of()) {
                let j = choose|j: int|
                    0 <= j < d.len() && origin(#[trigger] d[j]) is Some && origin(
                        d[j],
                    )->0.role_of() == kind.role_of() && d[j].reference_line == r.reference_line;
                assert(refs[j] == d[j]);
            }
        }
        assert(!is_barren(resolver, sources, file, r));
        assert(all[before.len() as int] == synthesized(resolver, repository_id, sources, file, r));
    }
}

/// The endpoint stands at the reference, with its protocol and role.
pub open spec fn is_origin_at(x: EndpointView, file: Seq<char>, r: SymbolReference) -> bool {
    &&& x.file_path == file
    &&& x.line == r.reference_line
    &&& Some(x.protocol) == package_protocol(r.callee_package->Some_0@)
    &&& Some(x.role) == symbol_role(r.callee_symbol@)
}

/// One of the endpoints stands for the path, at the place of `e`.
pub open spec fn has_route(r: Seq<EndpointView>, e: EndpointView, path: Seq<char>) -> bool {
    exists|k: int|
        0 <= k < r.len() && (#[trigger] r[k]).channel_raw == path && r[k].resolved
            && r[k].file_path == e.file_path && r[k].line == e.line && r[k].role == e.role
            && r[k].channel_normalized == normal_route(url_parts(path).1)
}

/// An endpoint that stands for a table of routes gives way to one endpoint for
/// each of its paths; any other stays.
pub proof fn lemma_tables_are_expanded<R: ChannelResolver>(
    resolver: R,
    es: Seq<EndpointView>,
    sources: Map<Seq<char>, String>,
    e: int,
)
    requires
        0 <= e < es.len(),
    ensures
        ({
            let r = expanded(resolver, es, sources);
            match table_paths(resolver, es[e], sources) {
                None => r.contains(es[e]),
                Some(paths) => forall|p: int|
                    0 <= p < paths.len() ==> has_route(r, es[e], #[trigger] paths[p]),
            }
        }),
{
    let a = plain_endpoints(resolver, es, sources);
    let b = table_routes(resolver, es, sources);
    let r = expanded(resolver, es, sources);
    lemma_plain_endpoints(resolver, es, sources, e);
    match table_paths(resolver, es[e], sources) {
        None => {
            let k = choose|k: int| 0 <= k < a.len() && a[k] == es[e];
            assert(r[k] == es[e]);
        },
        Some(paths) => {
            assert forall|p: int| 0 <= p < paths.len() implies has_route(
                r,
                es[e],
                #[trigger] paths[p],
            ) by {
                lemma_table_routes(resolver, es, sources, e, p);
                let x = route_of(es[e], paths[p]);
                let k = choose|k: int| 0 <= k < b.len() && b[k] == x;
                assert(r[a.len() + k] == x);
            }
        },
    }
}

proof fn lemma_plain_endpoints<R: ChannelResolver>(
    resolver: R,
    es: Seq<EndpointView>,
    sources: Map<Seq<char>, String>,
    e: int,
)
    requires
        0 <= e < es.len(),
    ensures
        table_paths(resolver, es[e], sources) is None ==> plain_endpoints(
            resolver,
            es,
            sources,
        ).contains(es[e]),
    decreases es.len(),
{
    let d = es.drop_last();
    let before = plain_endpoints(resolver, d, sources);
    let all = plain_endpoints(resolver, es, sources);
    if table_paths(resolver, es[e], sources) is None {
        if e < d.len() {
            assert(d[e] == es[e]);
            lemma_plain_endpoints(resolver, d, sources, e);
            let k = choose|k: int| 0 <= k < before.len() && before[k] == es[e];
            assert(all[k] == es[e]);
        } else {
            assert(all[before.len() as int] == es[e]);
        }
    }
}

proof fn lemma_table_routes<R: ChannelResolver>(
    resolver: R,
    es: Seq<EndpointView>,
    sources: Map<Seq<char>, String>,
    e: int,
    p: int,
)
    requires
        0 <= e < es.len(),
        table_paths(resolver, es[e], sources) is Some,
        0 <= p < table_paths(resolver, es[e], sources)->Some_0.len(),
    ensures
        table_routes(resolver, es, sources).contains(
            route_of(es[e], table_paths(resolver, es[e], sources)->Some_0[p]),
        ),
    decreases es.len(),
{
    let d = es.drop_last();
    let before = table_routes(resolver, d, sources);
    let all = table_routes(resolver, es, sources);
    let paths = table_paths(resolver, es[e], sources)->Some_0;
    let x = route_of(es[e], paths[p]);
    if e < d.len() {
        assert(d[e] == es[e]);
        lemma_table_routes(resolver, d, sources, e, p);
        let k = choose|k: int| 0 <= k < before.len() && before[k] == x;
        assert(all[k] == x);
    } else {
        assert(routes_of(es.last(), paths)[p] == x);
        assert(all[before.len() + p] == x);
    }
}

/// A site is covered if and only if the extractor found an endpoint of the role in
/// the file, no more than two lines away.
pub proof fn lemma_covered_site(
    existing: Seq<EndpointView>,
    file: Seq<char>,
    line: u32,
    role: ChannelRole,
)
    ensures
        is_covered_site(existing, file, line, role) <==> exists|j: int|
            0 <= j < existing.len() && (#[trigger] existing[j]).source is TreeSitter
                && existing[j].file_path == file && existing[j].role == role && within_two_lines(
                existing[j].line,
                line,
            ),
{
    if is_covered_site(existing, file, line, role) {
        let j = choose|j: int|
            0 <= j < existing.len() && covers(#[trigger] existing[j], file, line, role);
        assert(existing[j].source is TreeSitter);
    }
    if exists|j: int|
        0 <= j < existing.len() && (#[trigger] existing[j]).source is TreeSitter
            && existing[j].file_path == file && existing[j].role == role && within_two_lines(
            existing[j].line,
            line,
        ) {
        let j = choose|j: int|
            0 <= j < existing.len() && (#[trigger] existing[j]).source is TreeSitter
                && existing[j].file_path == file && existing[j].role == role && within_two_lines(
                existing[j].line,
                line,
            );
        assert(covers(existing[j], file, line, role));
    }
}

/// A read loop without an argument names no channel, with one it does; a call of
/// another kind that is no route always does.
pub proof fn lemma_barren<R: ChannelResolver>(
    resolver: R,
    sources: Map<Seq<char>, String>,
    file: Seq<char>,
    r: SymbolReference,
)
    requires
        origin(r) is Some,
    ensures
        is_read_loop(r.callee_symbol@) && !sources.contains_key(file) ==> is_barren(
            resolver,
            sources,
            file,
            r,
        ),
        is_read_loop(r.callee_symbol@) && sources.contains_key(file) && resolver.argument(
            sources[file]@,
            r.reference_line,
        ) is None ==> is_barren(resolver, sources, file, r),
        !(origin(r)->Some_0 is Http) && sources.contains_key(file) && resolver.argument(
            sources[file]@,
            r.reference_line,
        ) is Some ==> !is_barren(resolver, sources, file, r),
        !(origin(r)->Some_0 is Http) && !is_read_loop(r.callee_symbol@) ==> !is_barren(
            resolver,
            sources,
            file,
            r,
        ),
        origin(r)->Some_0 is Http && sources.contains_key(file) && !resolver.route_call(
            sources[file]@,
            r.reference_line,
        ) ==> is_barren(resolver, sources, file, r),
{
}

/// What stands for a channel that the source does not show: the class of the
/// receiver.
pub proof fn lemma_hint(path: Seq<char>, class: Seq<char>, method: Seq<char>)
    requires
        path.len() == 0 || path.last() == '.' || path.last() == '/' || path.last() == ':',
        class.len() > 0,
        lacks(class, '.') && lacks(class, '/') && lacks(class, ':'),
        lacks(method, '#'),
    ensures
        hint_text(path + class + "#"@ + method) == class,
{
    let receiver = path + class;
    lemma_method(receiver, method);
    let r = replace_char(replace_char(receiver, '/', '.'), ':', '.');
    let n = path.len() as int;
    lemma_rfind_char(r, '.');
    assert forall|k: int| n <= k < r.len() implies r[k] != '.' by {
        assert(receiver[k] == class[k - n]);
    }
    if n > 0 {
        assert(receiver[n - 1] == path.last());
        assert(r[n - 1] == '.');
    }
    assert(receiver.skip(n) =~= class);
}

/// Endpoints that a table of routes expands to have different ids where their
/// routes differ.
pub proof fn lemma_route_ids(e: EndpointView, a: Seq<char>, b: Seq<char>)
    ensures
        route_of(e, a).id == route_of(e, b).id <==> normal_channel(Protocol::Http, a).1
            == normal_channel(Protocol::Http, b).1,
        route_of(e, a).channel_raw == a && route_of(e, a).resolved,
        route_of(e, a).file_path == e.file_path && route_of(e, a).line == e.line,
{
    let front = e.id + ":"@;
    let x = normal_channel(Protocol::Http, a).1;
    let y = normal_channel(Protocol::Http, b).1;
    assert((front + x).skip(front.len() as int) =~= x);
    assert((front + y).skip(front.len() as int) =~= y);
}

} // verus!

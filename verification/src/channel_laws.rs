//! What links between services owe to the endpoints they join.

use vstd::prelude::*;
use crate::channel_link::{
    ChannelEdge, ChannelLinkOptions, ChannelLinkReport, EdgeKey, all_pairs, best_site,
    channel_names, edge_of, edges_of, first_pairs, frequent, has_pair_key, ids_at, is_matched,
    is_report, joined, key_of, lemma_all_pairs, lemma_report_is_complete, noisy, selected_endpoints,
    sites,
};
use crate::channel_routes::{
    before_query, globs, lemma_normal_route_segments, lemma_topic_literal, normal_route,
    path_segments, segment_matches, segments_match, topic_matches, url_parts,
};
use crate::channels::ChannelEndpoint;
use crate::order::{arranged, distinct, lemma_arranged_contains, lemma_distinct, lemma_sorted};
use crate::text::{
    all_lack, find_char, join, lacks, lemma_find_char_from, lemma_join_lacks, lemma_join_leading,
    lemma_split_join, non_empty, occurrences, split, starts_with,
};

verus! {

/// The two endpoints speak of one channel: a producer and a consumer of one
/// protocol, whose channels are both known and agree.
pub open spec fn speak_together(p: ChannelEndpoint, c: ChannelEndpoint) -> bool {
    &&& p.role is Producer && c.role is Consumer
    &&& p.resolved && c.resolved
    &&& p.protocol == c.protocol
    &&& p.protocol is Http ==> routes_agree(p.channel_normalized@, c.channel_normalized@)
    &&& !(p.protocol is Http) && !c.pattern ==> p.channel_normalized@ == c.channel_normalized@
    &&& !(p.protocol is Http) && c.pattern ==> !p.pattern && topic_matches(
        split(c.channel_normalized@, '/'),
        split(p.channel_normalized@, '/'),
    )
}

/// The routes have as many segments, each equal to its counterpart unless one of
/// the two is a parameter.
pub open spec fn routes_agree(a: Seq<char>, b: Seq<char>) -> bool {
    let x = non_empty(split(a, '/'));
    let y = non_empty(split(b, '/'));
    x.len() == y.len() && forall|i: int|
        0 <= i < x.len() ==> #[trigger] x[i] == y[i] || x[i] == "{}"@ || y[i] == "{}"@
}

proof fn lemma_joined(p: ChannelEndpoint, c: ChannelEndpoint)
    ensures
        joined(p, c) <==> speak_together(p, c),
{
    let x = path_segments(p.channel_normalized@);
    let y = path_segments(c.channel_normalized@);
    if routes_agree(p.channel_normalized@, c.channel_normalized@) {
        assert forall|i: int| 0 <= i < x.len() implies segment_matches(
            #[trigger] x[i],
            #[trigger] y[i],
        ) by {}
    }
    if segments_match(x, y) {
        assert forall|i: int| 0 <= i < x.len() implies #[trigger] x[i] == y[i] || x[i] == "{}"@
            || y[i] == "{}"@ by {
            assert(segment_matches(x[i], y[i]));
        }
    }
}

/// The edge goes from the file of the one endpoint to the file of the other, on
/// the channel of the consumer.
pub open spec fn links(e: ChannelEdge, p: ChannelEndpoint, c: ChannelEndpoint) -> bool {
    &&& e.producer.repository_id@ == p.repository_id@
    &&& e.producer.file_path@ == p.file_path@
    &&& e.consumer.repository_id@ == c.repository_id@
    &&& e.consumer.file_path@ == c.file_path@
    &&& e.consumer.channel_normalized@ == c.channel_normalized@
}

proof fn lemma_sites(
    es: Seq<ChannelEndpoint>,
    pairs: Seq<(usize, usize)>,
    key: EdgeKey,
    producers: bool,
    x: usize,
)
    ensures
        sites(es, pairs, key, producers).contains(x) <==> exists|k: int|
            0 <= k < pairs.len() && key_of(es, #[trigger] pairs[k]) == key && (if producers {
                pairs[k].0
            } else {
                pairs[k].1
            }) == x,
    decreases pairs.len(),
{
    if pairs.len() > 0 {
        let d = pairs.drop_last();
        lemma_sites(es, d, key, producers, x);
        let before = sites(es, d, key, producers);
        let all = sites(es, pairs, key, producers);
        if before.contains(x) {
            let k = choose|k: int| 0 <= k < before.len() && before[k] == x;
            assert(all[k] == x);
            let m = choose|m: int|
                0 <= m < d.len() && key_of(es, #[trigger] d[m]) == key && (if producers {
                    d[m].0
                } else {
                    d[m].1
                }) == x;
            assert(pairs[m] == d[m]);
        } else if all.contains(x) {
            let k = choose|k: int| 0 <= k < all.len() && all[k] == x;
            if k < before.len() {
                assert(before[k] == x);
            }
            assert(pairs[pairs.len() - 1] == pairs.last());
        }
        if exists|k: int|
            0 <= k < pairs.len() && key_of(es, #[trigger] pairs[k]) == key && (if producers {
                pairs[k].0
            } else {
                pairs[k].1
            }) == x {
            let k = choose|k: int|
                0 <= k < pairs.len() && key_of(es, #[trigger] pairs[k]) == key && (if producers {
                    pairs[k].0
                } else {
                    pairs[k].1
                }) == x;
            if k < d.len() {
                assert(d[k] == pairs[k]);
            } else {
                assert(all[before.len() as int] == x);
            }
        }
    }
}

proof fn lemma_best_site(es: Seq<ChannelEndpoint>, at: Seq<usize>)
    requires
        at.len() > 0,
    ensures
        at.contains(best_site(es, at)),
        forall|i: int|
            0 <= i < at.len() ==> es[best_site(es, at) as int].confidence >= es[(
            #[trigger] at[i]) as int].confidence,
        forall|i: int|
            0 <= i < at.len() && es[best_site(es, at) as int].confidence == es[(
            #[trigger] at[i]) as int].confidence ==> es[best_site(es, at) as int].line
                <= es[at[i] as int].line,
    decreases at.len(),
{
    if at.len() > 1 {
        let d = at.drop_last();
        lemma_best_site(es, d);
        let b = best_site(es, d);
        let k = choose|k: int| 0 <= k < d.len() && d[k] == b;
        assert(at[k] == b);
        assert(at[at.len() - 1] == at.last());
        assert forall|i: int| 0 <= i < at.len() implies es[best_site(es, at) as int].confidence
            >= es[(#[trigger] at[i]) as int].confidence && (es[best_site(es, at) as int].confidence
            == es[at[i] as int].confidence ==> es[best_site(es, at) as int].line
            <= es[at[i] as int].line) by {
            if i < d.len() {
                assert(d[i] == at[i]);
            }
        }
    } else {
        assert(at[0] == best_site(es, at));
    }
}

proof fn lemma_first_pairs(es: Seq<ChannelEndpoint>, pairs: Seq<(usize, usize)>)
    ensures
        forall|k: int|
            0 <= k < pairs.len() ==> has_pair_key(
                es,
                first_pairs(es, pairs),
                key_of(es, #[trigger] pairs[k]),
            ),
        forall|k: int|
            0 <= k < first_pairs(es, pairs).len() ==> pairs.contains(
                #[trigger] first_pairs(es, pairs)[k],
            ),
    decreases pairs.len(),
{
    if pairs.len() > 0 {
        let d = pairs.drop_last();
        lemma_first_pairs(es, d);
        let before = first_pairs(es, d);
        let all = first_pairs(es, pairs);
        assert forall|k: int| 0 <= k < pairs.len() implies has_pair_key(
            es,
            all,
            key_of(es, #[trigger] pairs[k]),
        ) by {
            let key = key_of(es, pairs[k]);
            if k < d.len() {
                assert(d[k] == pairs[k]);
                assert(has_pair_key(es, before, key));
                let i = choose|i: int|
                    0 <= i < before.len() && key_of(es, #[trigger] before[i]) == key;
                assert(key_of(es, all[i]) == key);
            } else if !has_pair_key(es, before, key) {
                assert(key_of(es, all[before.len() as int]) == key);
            }
        }
        assert forall|k: int| 0 <= k < all.len() implies pairs.contains(#[trigger] all[k]) by {
            if k < before.len() {
                assert(all[k] == before[k]);
                let m = choose|m: int| 0 <= m < d.len() && d[m] == before[k];
                assert(pairs[m] == before[k]);
            } else {
                assert(pairs[pairs.len() - 1] == all[k]);
            }
        }
    }
}

proof fn lemma_edges_of(
    es: Seq<ChannelEndpoint>,
    pairs: Seq<(usize, usize)>,
    firsts: Seq<(usize, usize)>,
    min: Option<i64>,
    e: ChannelEdge,
)
    ensures
        edges_of(es, pairs, firsts, min).contains(e) <==> exists|k: int|
            0 <= k < firsts.len() && e == edge_of(es, pairs, key_of(es, #[trigger] firsts[k])) && (
            min is None || e.confidence >= min->0),
    decreases firsts.len(),
{
    if firsts.len() > 0 {
        let d = firsts.drop_last();
        lemma_edges_of(es, pairs, d, min, e);
        let before = edges_of(es, pairs, d, min);
        let all = edges_of(es, pairs, firsts, min);
        if before.contains(e) {
            let k = choose|k: int| 0 <= k < before.len() && before[k] == e;
            assert(all[k] == e);
            let m = choose|m: int|
                0 <= m < d.len() && e == edge_of(es, pairs, key_of(es, #[trigger] d[m])) && (min
                    is None || e.confidence >= min->0);
            assert(firsts[m] == d[m]);
        } else if all.contains(e) {
            let k = choose|k: int| 0 <= k < all.len() && all[k] == e;
            if k < before.len() {
                assert(before[k] == e);
            }
            assert(firsts[firsts.len() - 1] == firsts.last());
        }
        if exists|k: int|
            0 <= k < firsts.len() && e == edge_of(es, pairs, key_of(es, #[trigger] firsts[k])) && (
            min is None || e.confidence >= min->0) {
            let k = choose|k: int|
                0 <= k < firsts.len() && e == edge_of(es, pairs, key_of(es, #[trigger] firsts[k]))
                    && (min is None || e.confidence >= min->0);
            if k < d.len() {
                assert(d[k] == firsts[k]);
            } else {
                assert(all[before.len() as int] == e);
            }
        }
    }
}

/// A producer and a consumer that speak of one channel are linked, file to file,
/// where no confidence is asked for. The site that is shown at either end is no
/// less sure than they are.
pub proof fn lemma_partners_are_linked(
    r: ChannelLinkReport,
    es: Seq<ChannelEndpoint>,
    i: int,
    j: int,
)
    requires
        is_report(r, es, None),
        es.len() <= usize::MAX,
        0 <= i < es.len(),
        0 <= j < es.len(),
        speak_together(es[i], es[j]),
    ensures
        exists|k: int|
            0 <= k < r.edges@.len() && links(#[trigger] r.edges@[k], es[i], es[j])
                && r.edges@[k].producer.confidence >= es[i].confidence
                && r.edges@[k].consumer.confidence >= es[j].confidence,
{
    lemma_joined(es[i], es[j]);
    lemma_all_pairs(es);
    let pairs = all_pairs(es);
    let firsts = first_pairs(es, pairs);
    let pair = (i as usize, j as usize);
    assert(pairs.contains(pair));
    let k = choose|k: int| 0 <= k < pairs.len() && pairs[k] == pair;
    let key = key_of(es, pairs[k]);
    lemma_first_pairs(es, pairs);
    assert(has_pair_key(es, firsts, key));
    let f = choose|f: int| 0 <= f < firsts.len() && key_of(es, #[trigger] firsts[f]) == key;
    let e = edge_of(es, pairs, key);
    lemma_edges_of(es, pairs, firsts, None, e);
    let edges = edges_of(es, pairs, firsts, None);
    assert(edges.contains(e));
    lemma_arranged_contains(edges);
    assert(arranged(edges).contains(e));
    let at = choose|at: int| 0 <= at < r.edges@.len() && r.edges@[at] == e;
    let ps = sites(es, pairs, key, true);
    let cs = sites(es, pairs, key, false);
    lemma_sites(es, pairs, key, true, pair.0);
    lemma_sites(es, pairs, key, false, pair.1);
    assert(ps.contains(pair.0) && cs.contains(pair.1));
    lemma_best_site(es, ps);
    lemma_best_site(es, cs);
    lemma_sites(es, pairs, key, true, best_site(es, ps));
    lemma_sites(es, pairs, key, false, best_site(es, cs));
    let a = choose|a: int| 0 <= a < ps.len() && ps[a] == pair.0;
    let b = choose|b: int| 0 <= b < cs.len() && cs[b] == pair.1;
    assert(es[ps[a] as int] == es[i]);
    assert(es[cs[b] as int] == es[j]);
    assert(links(r.edges@[at], es[i], es[j]));
}

/// Every edge links endpoints of the report that speak of one channel: the two
/// that it shows are among them, in the files of such a pair. It is as sure as
/// the less sure of the two, and surer than what was asked for.
pub proof fn lemma_edges_link_partners(
    r: ChannelLinkReport,
    es: Seq<ChannelEndpoint>,
    min: Option<i64>,
    k: int,
)
    requires
        is_report(r, es, min),
        es.len() <= usize::MAX,
        0 <= k < r.edges@.len(),
    ensures
        ({
            let e = r.edges@[k];
            &&& min matches Some(m) ==> e.confidence >= m
            &&& e.confidence <= e.producer.confidence && e.confidence <= e.consumer.confidence
            &&& e.confidence == e.producer.confidence || e.confidence == e.consumer.confidence
            &&& es.contains(e.producer) && es.contains(e.consumer)
            &&& e.producer.role is Producer && e.consumer.role is Consumer
            &&& e.producer.resolved && e.consumer.resolved
            &&& exists|i: int, j: int|
                0 <= i < es.len() && 0 <= j < es.len() && #[trigger] speak_together(es[i], es[j])
                    && links(e, es[i], es[j])
        }),
{
    let pairs = all_pairs(es);
    let firsts = first_pairs(es, pairs);
    let edges = edges_of(es, pairs, firsts, min);
    let e = r.edges@[k];
    lemma_arranged_contains(edges);
    assert(arranged(edges).contains(e));
    lemma_edges_of(es, pairs, firsts, min, e);
    let f = choose|f: int|
        0 <= f < firsts.len() && e == edge_of(es, pairs, key_of(es, #[trigger] firsts[f])) && (min
            is None || e.confidence >= min->0);
    let key = key_of(es, firsts[f]);
    lemma_first_pairs(es, pairs);
    assert(pairs.contains(firsts[f]));
    let m = choose|m: int| 0 <= m < pairs.len() && pairs[m] == firsts[f];
    lemma_all_pairs(es);
    let ps = sites(es, pairs, key, true);
    let cs = sites(es, pairs, key, false);
    assert(key_of(es, pairs[m]) == key);
    lemma_sites(es, pairs, key, true, pairs[m].0);
    lemma_sites(es, pairs, key, false, pairs[m].1);
    lemma_best_site(es, ps);
    lemma_best_site(es, cs);
    lemma_sites(es, pairs, key, true, best_site(es, ps));
    lemma_sites(es, pairs, key, false, best_site(es, cs));
    let a = choose|a: int|
        0 <= a < pairs.len() && key_of(es, #[trigger] pairs[a]) == key && pairs[a].0 == best_site(
            es,
            ps,
        );
    let b = choose|b: int|
        0 <= b < pairs.len() && key_of(es, #[trigger] pairs[b]) == key && pairs[b].1 == best_site(
            es,
            cs,
        );
    assert(joined(es[pairs[a].0 as int], es[pairs[a].1 as int]));
    assert(joined(es[pairs[b].0 as int], es[pairs[b].1 as int]));
    let i = pairs[a].0 as int;
    let j = pairs[a].1 as int;
    lemma_joined(es[i], es[j]);
    assert(es[i] == e.producer);
    assert(es[pairs[b].1 as int] == e.consumer);
    assert(speak_together(es[i], es[j]));
    assert(links(e, es[i], es[j]));
}

/// An endpoint is dangling if and only if no endpoint of the report speaks of its
/// channel with it, under its id.
pub proof fn lemma_dangling(
    r: ChannelLinkReport,
    es: Seq<ChannelEndpoint>,
    min: Option<i64>,
    e: ChannelEndpoint,
)
    requires
        is_report(r, es, min),
        es.len() <= usize::MAX,
        es.contains(e),
    ensures
        e.role is Producer ==> (r.unmatched_producers@.contains(e) <==> !has_partner(es, e.id@)),
        e.role is Consumer ==> (r.unmatched_consumers@.contains(e) <==> !has_partner(es, e.id@)),
{
    lemma_report_is_complete(r, es, min);
    lemma_all_pairs(es);
    let pairs = all_pairs(es);
    if is_matched(es, pairs, e.id@) {
        let k = choose|k: int|
            0 <= k < pairs.len() && (es[(#[trigger] pairs[k]).0 as int].id@ == e.id@
                || es[pairs[k].1 as int].id@ == e.id@);
        assert(joined(es[pairs[k].0 as int], es[pairs[k].1 as int]));
        lemma_joined(es[pairs[k].0 as int], es[pairs[k].1 as int]);
        assert(speak_together(es[pairs[k].0 as int], es[pairs[k].1 as int]));
    }
    if has_partner(es, e.id@) {
        let (i, j) = choose|i: int, j: int|
            0 <= i < es.len() && 0 <= j < es.len() && #[trigger] speak_together(es[i], es[j]) && (
            es[i].id@ == e.id@ || es[j].id@ == e.id@);
        lemma_joined(es[i], es[j]);
        assert(pairs.contains((i as usize, j as usize)));
        let k = choose|k: int| 0 <= k < pairs.len() && pairs[k] == (i as usize, j as usize);
        assert(es[pairs[k].0 as int] == es[i]);
        assert(is_matched(es, pairs, e.id@));
    }
    if e.role is Producer {
        assert(r.unmatched_producers@.contains(e) <==> !is_matched(es, pairs, e.id@));
    } else {
        assert(r.unmatched_consumers@.contains(e) <==> !is_matched(es, pairs, e.id@));
    }
}

/// The endpoint known as `id` speaks with another.
pub open spec fn has_partner(es: Seq<ChannelEndpoint>, id: Seq<char>) -> bool {
    exists|i: int, j: int|
        0 <= i < es.len() && 0 <= j < es.len() && #[trigger] speak_together(es[i], es[j]) && (
        es[i].id@ == id || es[j].id@ == id)
}

/// An endpoint takes part if and only if it speaks the protocol asked for and no
/// pattern that excludes channels matches its own, as written or as normal.
pub proof fn lemma_selection(
    es: Seq<ChannelEndpoint>,
    options: ChannelLinkOptions,
    e: ChannelEndpoint,
)
    ensures
        selected_endpoints(es, options).contains(e) <==> es.contains(e) && (options.protocol is None
            || e.protocol == options.protocol->Some_0) && forall|k: int|
            0 <= k < options.exclude_channels@.len() ==> !globs(
                (#[trigger] options.exclude_channels@[k])@,
                e.channel_normalized@,
            ) && !globs(options.exclude_channels@[k]@, e.channel_raw@),
    decreases es.len(),
{
    if es.len() > 0 {
        let d = es.drop_last();
        lemma_selection(d, options, e);
        let before = selected_endpoints(d, options);
        let all = selected_endpoints(es, options);
        if before.contains(e) {
            let k = choose|k: int| 0 <= k < before.len() && before[k] == e;
            assert(all[k] == e);
            let m = choose|m: int| 0 <= m < d.len() && d[m] == e;
            assert(es[m] == e);
        } else if all.contains(e) {
            let k = choose|k: int| 0 <= k < all.len() && all[k] == e;
            if k < before.len() {
                assert(before[k] == e);
            }
            assert(es[es.len() - 1] == e);
        }
        if es.contains(e) {
            let m = choose|m: int| 0 <= m < es.len() && es[m] == e;
            if m < d.len() {
                assert(d[m] == e);
            } else if all.len() > before.len() {
                assert(all[before.len() as int] == e);
            }
        }
    }
}

/// A channel is noisy if and only if more than twenty edges are on it.
pub proof fn lemma_noisy(edges: Seq<ChannelEdge>, name: Seq<char>)
    ensures
        noisy(edges).contains(name) <==> edges.filter(is_on(name)).len() > 20,
{
    let names = channel_names(edges);
    lemma_sorted(frequent(names, distinct(names)));
    lemma_frequent(names, distinct(names), name);
    lemma_distinct(names);
    lemma_occurrences(edges, name);
    if occurrences(names, name) > 0 {
        lemma_occurs(names, name);
    }
}

/// The edge is on the channel, named by protocol and channel.
pub open spec fn is_on(name: Seq<char>) -> spec_fn(ChannelEdge) -> bool {
    |e: ChannelEdge|
        e.producer.protocol.text() + ":"@ + e.consumer.channel_normalized@ == name
}

proof fn lemma_occurs(names: Seq<Seq<char>>, name: Seq<char>)
    requires
        occurrences(names, name) > 0,
    ensures
        names.contains(name),
    decreases names.len(),
{
    if names.len() > 0 {
        if names.last() == name {
            assert(names[names.len() - 1] == name);
        } else {
            lemma_occurs(names.drop_last(), name);
            let k = choose|k: int|
                0 <= k < names.drop_last().len() && names.drop_last()[k] == name;
            assert(names[k] == name);
        }
    }
}

proof fn lemma_occurrences(edges: Seq<ChannelEdge>, name: Seq<char>)
    ensures
        occurrences(channel_names(edges), name) == edges.filter(is_on(name)).len(),
    decreases edges.len(),
{
    if edges.len() > 0 {
        let d = edges.drop_last();
        lemma_occurrences(d, name);
        assert(channel_names(edges).drop_last() =~= channel_names(d));
        assert(d.push(edges.last()) =~= edges);
        d.lemma_filter_push(edges.last(), is_on(name));
    } else {
        reveal(Seq::filter);
    }
}

proof fn lemma_frequent(names: Seq<Seq<char>>, different: Seq<Seq<char>>, name: Seq<char>)
    ensures
        frequent(names, different).contains(name) <==> different.contains(name) && occurrences(
            names,
            name,
        ) > 20,
    decreases different.len(),
{
    if different.len() > 0 {
        let d = different.drop_last();
        lemma_frequent(names, d, name);
        let before = frequent(names, d);
        let all = frequent(names, different);
        if before.contains(name) {
            let k = choose|k: int| 0 <= k < before.len() && before[k] == name;
            assert(all[k] == name);
            let m = choose|m: int| 0 <= m < d.len() && d[m] == name;
            assert(different[m] == name);
        } else if all.contains(name) {
            let k = choose|k: int| 0 <= k < all.len() && all[k] == name;
            if k < before.len() {
                assert(before[k] == name);
            }
            assert(different[different.len() - 1] == name);
        }
        if different.contains(name) && occurrences(names, name) > 20 {
            let m = choose|m: int| 0 <= m < different.len() && different[m] == name;
            if m < d.len() {
                assert(d[m] == name);
            } else {
                assert(all[before.len() as int] == name);
            }
        }
    }
}

/// In a subscription `+` stands for exactly one segment, and `#` for any that
/// follow.
pub proof fn lemma_topic_wildcards(
    front: Seq<Seq<char>>,
    one: Seq<char>,
    back: Seq<Seq<char>>,
)
    requires
        forall|i: int|
            0 <= i < front.len() ==> #[trigger] front[i] != "#"@ && front[i] != "+"@,
        forall|i: int| 0 <= i < back.len() ==> #[trigger] back[i] != "#"@ && back[i] != "+"@,
    ensures
        topic_matches(front + seq!["+"@] + back, front + seq![one] + back),
        !topic_matches(front + seq!["+"@] + back, front + back),
        topic_matches(front + seq!["#"@], front + back),
    decreases front.len(),
{
    reveal_strlit("+");
    reveal_strlit("#");
    assert("+"@ != "#"@) by {
        assert("+"@[0] != "#"@[0]);
    }
    let a = front + seq!["+"@] + back;
    let b = front + seq![one] + back;
    let c = front + seq!["#"@];
    let t = front + back;
    if front.len() == 0 {
        assert(a[0] == "+"@);
        assert(a.skip(1) =~= back);
        assert(b.skip(1) =~= back);
        lemma_topic_literal(back, back);
        assert(c[0] == "#"@);
        assert(t =~= back);
        if back.len() > 0 {
            lemma_topic_literal(back, back.skip(1));
            assert(back.len() != back.skip(1).len());
        }
    } else {
        let rest = front.skip(1);
        assert forall|i: int| 0 <= i < rest.len() implies #[trigger] rest[i] != "#"@ && rest[i]
            != "+"@ by {
            assert(rest[i] == front[i + 1]);
        }
        lemma_topic_wildcards(rest, one, back);
        assert(a[0] == front[0] && b[0] == front[0] && c[0] == front[0] && t[0] == front[0]);
        assert(a.skip(1) =~= rest + seq!["+"@] + back);
        assert(b.skip(1) =~= rest + seq![one] + back);
        assert(c.skip(1) =~= rest + seq!["#"@]);
        assert(t.skip(1) =~= rest + back);
    }
}

/// A route keeps its segments in order, a parameter in any of its spellings
/// becomes `{}`, and what follows the path is dropped.
pub proof fn lemma_route_normal_form(segments: Seq<Seq<char>>, i: int)
    requires
        all_lack(segments, '/') && all_lack(segments, '?') && all_lack(segments, '#'),
        forall|k: int| 0 <= k < segments.len() ==> (#[trigger] segments[k]).len() > 0,
        0 <= i < segments.len(),
    ensures
        ({
            let r = path_segments(normal_route("/"@ + join(segments, "/"@)));
            &&& r.len() == segments.len()
            &&& segments[i][0] == ':' ==> r[i] == "{}"@
            &&& segments[i][0] == '{' && segments[i].last() == '}' ==> r[i] == "{}"@
            &&& segments[i][0] == '<' && segments[i].last() == '>' ==> r[i] == "{}"@
            &&& segments[i][0] != ':' && segments[i][0] != '{' && segments[i][0] != '<' ==> r[i]
                == segments[i]
        }),
{
    reveal_strlit("/");
    assert("/"@ =~= seq!['/']);
    let path = "/"@ + join(segments, "/"@);
    lemma_normal_route_segments(path);
    lemma_join_lacks(segments, "/"@, '?');
    lemma_join_lacks(segments, "/"@, '#');
    assert(lacks(path, '?') && lacks(path, '#'));
    lemma_no_query(path);
    let empty = Seq::<char>::empty();
    lemma_join_leading(segments, "/"@);
    let parts = seq![empty] + segments;
    assert(path == join(parts, "/"@));
    assert(all_lack(parts, '/')) by {
        assert forall|k: int| 0 <= k < parts.len() implies lacks(#[trigger] parts[k], '/') by {
            if k > 0 {
                assert(parts[k] == segments[k - 1]);
                assert(lacks(segments[k - 1], '/'));
            }
        }
    }
    lemma_split_join(parts, '/');
    lemma_drop_empty(segments);
    assert(path_segments(before_query(path)) == segments);
}

proof fn lemma_drop_empty(segments: Seq<Seq<char>>)
    requires
        forall|k: int| 0 <= k < segments.len() ==> (#[trigger] segments[k]).len() > 0,
    ensures
        non_empty(seq![Seq::<char>::empty()] + segments) == segments,
    decreases segments.len(),
{
    let parts = seq![Seq::<char>::empty()] + segments;
    if segments.len() == 0 {
        assert(parts.drop_last() =~= Seq::<Seq<char>>::empty());
        assert(parts.last() =~= Seq::<char>::empty());
        reveal_with_fuel(non_empty, 3);
        assert(non_empty(parts.drop_last()) =~= segments);
    } else {
        let d = segments.drop_last();
        assert forall|k: int| 0 <= k < d.len() implies (#[trigger] d[k]).len() > 0 by {
            assert(segments[k].len() > 0);
        }
        lemma_drop_empty(d);
        assert(parts.drop_last() =~= seq![Seq::<char>::empty()] + d);
        assert(parts.last() == segments[segments.len() - 1]);
        assert(d.push(segments.last()) =~= segments);
    }
}

proof fn lemma_no_query(path: Seq<char>)
    requires
        lacks(path, '?'),
        lacks(path, '#'),
    ensures
        before_query(path) == path,
    decreases path.len(),
{
    if path.len() > 0 {
        let rest = path.skip(1);
        assert(lacks(rest, '?') && lacks(rest, '#')) by {
            assert forall|i: int| 0 <= i < rest.len() implies rest[i] != '?' && rest[i] != '#' by {
                assert(rest[i] == path[i + 1]);
            }
        }
        lemma_no_query(rest);
        assert(seq![path[0]] + rest =~= path);
    }
}

/// What follows a query or a fragment sign plays no part.
pub proof fn lemma_query_is_dropped(path: Seq<char>, rest: Seq<char>)
    requires
        lacks(path, '?'),
        lacks(path, '#'),
    ensures
        normal_route(path + seq!['?'] + rest) == normal_route(path),
        normal_route(path + seq!['#'] + rest) == normal_route(path),
{
    lemma_no_query(path);
    lemma_cut(path, '?', rest);
    lemma_cut(path, '#', rest);
}

proof fn lemma_cut(path: Seq<char>, c: char, rest: Seq<char>)
    requires
        lacks(path, '?'),
        lacks(path, '#'),
        c == '?' || c == '#',
    ensures
        before_query(path + seq![c] + rest) == path,
    decreases path.len(),
{
    let s = path + seq![c] + rest;
    if path.len() == 0 {
        assert(s[0] == c);
        assert(before_query(s) =~= path);
    } else {
        let d = path.skip(1);
        assert(lacks(d, '?') && lacks(d, '#')) by {
            assert forall|i: int| 0 <= i < d.len() implies d[i] != '?' && d[i] != '#' by {
                assert(d[i] == path[i + 1]);
            }
        }
        lemma_cut(d, c, rest);
        assert(s[0] == path[0]);
        assert(s.skip(1) =~= d + seq![c] + rest);
        assert(seq![path[0]] + d =~= path);
    }
}

/// An absolute URL is taken apart into its host and its path; anything else is
/// a path without a host.
pub proof fn lemma_url_parts(host: Seq<char>, path: Seq<char>)
    requires
        lacks(host, '/'),
        path.len() > 0,
        path[0] == '/',
    ensures
        url_parts("http://"@ + host + path) == (Some(host), path),
        url_parts("https://"@ + host + path) == (Some(host), path),
        url_parts(path) == (None::<Seq<char>>, path),
{
    reveal_strlit("http://");
    reveal_strlit("https://");
    let rest = host + path;
    lemma_find_char_from(rest, '/', 0);
    assert(rest[host.len() as int] == '/');
    assert forall|i: int| 0 <= i < host.len() implies rest[i] != '/' by {
        assert(rest[i] == host[i]);
    }
    assert(find_char(rest, '/') == host.len());
    assert(rest.take(host.len() as int) =~= host);
    assert(rest.skip(host.len() as int) =~= path);
    let a = "http://"@ + host + path;
    let b = "https://"@ + host + path;
    assert(a.subrange(0, 7) =~= "http://"@);
    assert(a.skip(7) =~= rest);
    assert(b.subrange(0, 8) =~= "https://"@);
    assert(b.skip(8) =~= rest);
    assert(!starts_with(b, "http://"@)) by {
        if starts_with(b, "http://"@) {
            assert(b.subrange(0, 7)[4] == b[4]);
        }
    }
    assert(!starts_with(path, "http://"@)) by {
        if starts_with(path, "http://"@) {
            assert(path.subrange(0, 7)[0] == path[0]);
        }
    }
    assert(!starts_with(path, "https://"@)) by {
        if starts_with(path, "https://"@) {
            assert(path.subrange(0, 8)[0] == path[0]);
        }
    }
}

proof fn lemma_ids_at(es: Seq<ChannelEndpoint>, at: Seq<usize>, x: Seq<char>)
    ensures
        ids_at(es, at).no_duplicates(),
        ids_at(es, at).contains(x) <==> exists|k: int|
            0 <= k < at.len() && es[(#[trigger] at[k]) as int].id@ == x,
    decreases at.len(),
{
    if at.len() > 0 {
        let d = at.drop_last();
        lemma_ids_at(es, d, x);
        let before = ids_at(es, d);
        let all = ids_at(es, at);
        let id = es[at.last() as int].id@;
        assert(at[at.len() - 1] == at.last());
        if before.contains(x) {
            let k = choose|k: int| 0 <= k < before.len() && before[k] == x;
            assert(all[k] == x);
            let m = choose|m: int| 0 <= m < d.len() && es[(#[trigger] d[m]) as int].id@ == x;
            assert(at[m] == d[m]);
        } else if all.contains(x) {
            let k = choose|k: int| 0 <= k < all.len() && all[k] == x;
            if k < before.len() {
                assert(before[k] == x);
            }
        }
        if exists|k: int| 0 <= k < at.len() && es[(#[trigger] at[k]) as int].id@ == x {
            let k = choose|k: int| 0 <= k < at.len() && es[(#[trigger] at[k]) as int].id@ == x;
            if k < d.len() {
                assert(d[k] == at[k]);
            } else if !before.contains(id) {
                assert(all[before.len() as int] == x);
            }
        }
    }
}

/// An endpoint of the id stands behind the edge, as its producer or as its
/// consumer: it speaks with a partner of the channel of the consumer, in the
/// files of the edge.
pub open spec fn stands_behind(
    es: Seq<ChannelEndpoint>,
    e: ChannelEdge,
    producers: bool,
    id: Seq<char>,
) -> bool {
    exists|i: int, j: int|
        0 <= i < es.len() && 0 <= j < es.len() && #[trigger] speak_together(es[i], es[j]) && links(
            e,
            es[i],
            es[j],
        ) && (if producers {
            es[i].id@
        } else {
            es[j].id@
        }) == id
}

/// The list names, once each, what stands behind the edge on the one side.
pub open spec fn lists_side(
    ids: Seq<Seq<char>>,
    es: Seq<ChannelEndpoint>,
    e: ChannelEdge,
    producers: bool,
) -> bool {
    &&& ids.no_duplicates()
    &&& forall|id: Seq<char>| #[trigger] ids.contains(id) <==> stands_behind(es, e, producers, id)
}

proof fn lemma_side(
    es: Seq<ChannelEndpoint>,
    pairs: Seq<(usize, usize)>,
    key: EdgeKey,
    e: ChannelEdge,
    producers: bool,
)
    requires
        pairs == all_pairs(es),
        es.len() <= usize::MAX,
        e.producer.repository_id@ == key.producer_repo,
        e.producer.file_path@ == key.producer_file,
        e.consumer.repository_id@ == key.consumer_repo,
        e.consumer.file_path@ == key.consumer_file,
        e.consumer.channel_normalized@ == key.channel,
    ensures
        lists_side(ids_at(es, sites(es, pairs, key, producers)), es, e, producers),
{
    let at = sites(es, pairs, key, producers);
    let ids = ids_at(es, at);
    lemma_all_pairs(es);
    lemma_ids_at(es, at, Seq::empty());
    assert forall|id: Seq<char>| #[trigger] ids.contains(id) <==> stands_behind(
        es,
        e,
        producers,
        id,
    ) by {
        lemma_ids_at(es, at, id);
        if ids.contains(id) {
            let k = choose|k: int| 0 <= k < at.len() && es[(#[trigger] at[k]) as int].id@ == id;
            lemma_sites(es, pairs, key, producers, at[k]);
            assert(at.contains(at[k]));
            let m = choose|m: int|
                0 <= m < pairs.len() && key_of(es, #[trigger] pairs[m]) == key && (if producers {
                    pairs[m].0
                } else {
                    pairs[m].1
                }) == at[k];
            let i = pairs[m].0 as int;
            let j = pairs[m].1 as int;
            assert(joined(es[i], es[j]));
            lemma_joined(es[i], es[j]);
            assert(speak_together(es[i], es[j]) && links(e, es[i], es[j]));
        }
        if stands_behind(es, e, producers, id) {
            let (i, j) = choose|i: int, j: int|
                0 <= i < es.len() && 0 <= j < es.len() && #[trigger] speak_together(es[i], es[j])
                    && links(e, es[i], es[j]) && (if producers {
                    es[i].id@
                } else {
                    es[j].id@
                }) == id;
            lemma_joined(es[i], es[j]);
            let pair = (i as usize, j as usize);
            assert(pairs.contains(pair));
            let m = choose|m: int| 0 <= m < pairs.len() && pairs[m] == pair;
            assert(key_of(es, pairs[m]) == key);
            let x = if producers {
                pair.0
            } else {
                pair.1
            };
            lemma_sites(es, pairs, key, producers, x);
            assert(at.contains(x));
            let k = choose|k: int| 0 <= k < at.len() && at[k] == x;
            assert(es[at[k] as int].id@ == id);
        }
    }
}

/// An edge weighs as many links as there are pairs of a producer and a consumer
/// behind it.
pub proof fn lemma_edge_weighs_its_links(
    r: ChannelLinkReport,
    es: Seq<ChannelEndpoint>,
    min: Option<i64>,
    k: int,
)
    requires
        is_report(r, es, min),
        es.len() <= usize::MAX,
        0 <= k < r.edges@.len(),
    ensures
        exists|ps: Seq<Seq<char>>, cs: Seq<Seq<char>>|
            #[trigger] lists_side(ps, es, r.edges@[k], true) && #[trigger] lists_side(
                cs,
                es,
                r.edges@[k],
                false,
            ) && (ps.len() * cs.len() <= usize::MAX ==> r.edges@[k].weight == ps.len() * cs.len()),
{
    let pairs = all_pairs(es);
    let firsts = first_pairs(es, pairs);
    let edges = edges_of(es, pairs, firsts, min);
    let e = r.edges@[k];
    lemma_arranged_contains(edges);
    assert(arranged(edges).contains(e));
    lemma_edges_of(es, pairs, firsts, min, e);
    let f = choose|f: int|
        0 <= f < firsts.len() && e == edge_of(es, pairs, key_of(es, #[trigger] firsts[f])) && (min
            is None || e.confidence >= min->0);
    let key = key_of(es, firsts[f]);
    lemma_first_pairs(es, pairs);
    assert(pairs.contains(firsts[f]));
    let m = choose|m: int| 0 <= m < pairs.len() && pairs[m] == firsts[f];
    let ps = sites(es, pairs, key, true);
    let cs = sites(es, pairs, key, false);
    assert(key_of(es, pairs[m]) == key);
    lemma_sites(es, pairs, key, true, pairs[m].0);
    lemma_sites(es, pairs, key, false, pairs[m].1);
    lemma_best_site(es, ps);
    lemma_best_site(es, cs);
    lemma_sites(es, pairs, key, true, best_site(es, ps));
    lemma_sites(es, pairs, key, false, best_site(es, cs));
    lemma_side(es, pairs, key, e, true);
    lemma_side(es, pairs, key, e, false);
    assert(lists_side(ids_at(es, ps), es, e, true));
    assert(lists_side(ids_at(es, cs), es, e, false));
}

} // verus!

//! Producers and consumers joined over their channels into edges between
//! services.

use vstd::prelude::*;
use vstd::string::*;
use crate::channel_routes::{
    glob_match, globs, http_route_matches, mqtt_topic_matches, route_matches, topic_matches,
};
use crate::channels::{ChannelEndpoint, ChannelRole, Protocol};
use crate::order::{
    Ranked, arrange, arranged, distinct, lemma_arranged, lemma_texts_order, sort_texts,
    sorted_texts, str_views, texts_less, texts_lt,
};
use crate::text::{count_of, has_text, occurrences, same_text, split, texts};

verus! {

/// A channel with more edges than this is reported as noisy.
pub const FAN_OUT_WARNING_THRESHOLD: usize = 20;

/// What is asked of a report.
#[derive(Debug)]
pub struct ChannelLinkOptions {
    /// Only endpoints of this protocol.
    pub protocol: Option<Protocol>,
    /// Only edges of at least this confidence.
    pub min_confidence: Option<i64>,
    /// Globs of channels to leave out.
    pub exclude_channels: Vec<String>,
}

/// An edge from a producer to a consumer.
#[derive(Debug)]
pub struct ChannelEdge {
    pub producer: ChannelEndpoint,
    pub consumer: ChannelEndpoint,
    pub weight: usize,
    pub confidence: i64,
}

/// Producers and consumers joined on their channels.
#[derive(Debug)]
pub struct ChannelLinkReport {
    /// Edges, one for each pair of files and channel.
    pub edges: Vec<ChannelEdge>,
    /// Producers without a consumer.
    pub unmatched_producers: Vec<ChannelEndpoint>,
    /// Consumers without a producer.
    pub unmatched_consumers: Vec<ChannelEndpoint>,
    /// Channels with more edges than the threshold.
    pub noisy_channels: Vec<String>,
}

impl Default for ChannelLinkOptions {
    fn default() -> (r: ChannelLinkOptions)
        ensures
            r.protocol is None,
            r.min_confidence is None,
            r.exclude_channels@.len() == 0,
    {
        ChannelLinkOptions {
            protocol: None,
            min_confidence: None,
            exclude_channels: Vec::new(),
        }
    }
}

impl ChannelEdge {
    /// Whether the edge joins two repositories.
    pub fn is_cross_repo(&self) -> (r: bool)
        ensures
            r == (self.producer.repository_id@ != self.consumer.repository_id@),
    {
        !same_text(self.producer.repository_id.as_str(), self.consumer.repository_id.as_str())
    }

    /// The channel of the edge.
    pub open spec fn channel_text(self) -> Seq<char> {
        self.consumer.channel_normalized@
    }

    /// The channel of the edge.
    pub fn channel(&self) -> (r: &str)
        ensures
            r@ == self.channel_text(),
    {
        self.consumer.channel_normalized.as_str()
    }

    /// The protocol of the edge.
    pub fn protocol(&self) -> (r: Protocol)
        ensures
            r == self.producer.protocol,
    {
        self.producer.protocol
    }

    /// What edges are ordered by.
    pub open spec fn rank_texts(self) -> Seq<Seq<char>> {
        seq![
            self.producer.protocol.text(),
            self.channel_text(),
            self.producer.repository_id@,
            self.producer.file_path@,
            self.consumer.repository_id@,
            self.consumer.file_path@,
        ]
    }
}

impl Ranked for ChannelEdge {
    /// By protocol, channel, producer and consumer.
    open spec fn ranks_before(self, other: Self) -> bool {
        texts_lt(self.rank_texts(), other.rank_texts())
    }

    fn goes_before(&self, other: &Self) -> (r: bool) {
        let a: [&str; 6] = [
            self.producer.protocol.as_str(),
            self.consumer.channel_normalized.as_str(),
            self.producer.repository_id.as_str(),
            self.producer.file_path.as_str(),
            self.consumer.repository_id.as_str(),
            self.consumer.file_path.as_str(),
        ];
        let b: [&str; 6] = [
            other.producer.protocol.as_str(),
            other.consumer.channel_normalized.as_str(),
            other.producer.repository_id.as_str(),
            other.producer.file_path.as_str(),
            other.consumer.repository_id.as_str(),
            other.consumer.file_path.as_str(),
        ];
        proof {
            assert(str_views(a@) =~= self.rank_texts());
            assert(str_views(b@) =~= other.rank_texts());
        }
        texts_less(a.as_slice(), b.as_slice())
    }

    proof fn rank_laws(a: Self, b: Self, c: Self) {
        lemma_texts_order(a.rank_texts(), b.rank_texts(), c.rank_texts());
    }
}

/// The channels of two endpoints match: HTTP by route; otherwise a pattern
/// matches the topics it stands for that are no patterns, and any other
/// channel its own name.
pub open spec fn channels_match(p: ChannelEndpoint, c: ChannelEndpoint) -> bool {
    if p.protocol == Protocol::Http {
        route_matches(p.channel_normalized@, c.channel_normalized@)
    } else if c.pattern {
        !p.pattern && topic_matches(
            split(c.channel_normalized@, '/'),
            split(p.channel_normalized@, '/'),
        )
    } else {
        p.channel_normalized@ == c.channel_normalized@
    }
}

/// A producer and a consumer that are joined.
pub open spec fn joined(p: ChannelEndpoint, c: ChannelEndpoint) -> bool {
    &&& p.resolved && c.resolved
    &&& p.role == ChannelRole::Producer && c.role == ChannelRole::Consumer
    &&& p.protocol == c.protocol
    &&& channels_match(p, c)
}

/// The pairs of the endpoint at `i` with a producer before `n`.
pub open spec fn pairs_of(es: Seq<ChannelEndpoint>, i: int, n: int) -> Seq<(usize, usize)>
    decreases n,
{
    if n <= 0 {
        Seq::empty()
    } else {
        let d = pairs_of(es, i, n - 1);
        if joined(es[n - 1], es[i]) {
            d.push(((n - 1) as usize, i as usize))
        } else {
            d
        }
    }
}

/// The pairs of the endpoints before `m` with a producer.
pub open spec fn pairs_before(es: Seq<ChannelEndpoint>, m: int) -> Seq<(usize, usize)>
    decreases m,
{
    if m <= 0 {
        Seq::empty()
    } else {
        pairs_before(es, m - 1) + pairs_of(es, m - 1, es.len() as int)
    }
}

/// All pairs of producers and consumers that are joined, by place: consumer by
/// consumer.
pub open spec fn all_pairs(es: Seq<ChannelEndpoint>) -> Seq<(usize, usize)> {
    pairs_before(es, es.len() as int)
}

/// What pairs are gathered by: the files at both ends and the channel.
pub struct EdgeKey {
    pub producer_repo: Seq<char>,
    pub producer_file: Seq<char>,
    pub consumer_repo: Seq<char>,
    pub consumer_file: Seq<char>,
    pub channel: Seq<char>,
}

/// The key of a pair.
pub open spec fn key_of(es: Seq<ChannelEndpoint>, pair: (usize, usize)) -> EdgeKey {
    let p = es[pair.0 as int];
    let c = es[pair.1 as int];
    EdgeKey {
        producer_repo: p.repository_id@,
        producer_file: p.file_path@,
        consumer_repo: c.repository_id@,
        consumer_file: c.file_path@,
        channel: c.channel_normalized@,
    }
}

/// One of the pairs has the key.
pub open spec fn has_pair_key(
    es: Seq<ChannelEndpoint>,
    pairs: Seq<(usize, usize)>,
    key: EdgeKey,
) -> bool {
    exists|i: int| 0 <= i < pairs.len() && key_of(es, #[trigger] pairs[i]) == key
}

/// The first pair of each key.
pub open spec fn first_pairs(es: Seq<ChannelEndpoint>, pairs: Seq<(usize, usize)>) -> Seq<
    (usize, usize),
>
    decreases pairs.len(),
{
    if pairs.len() == 0 {
        pairs
    } else {
        let d = first_pairs(es, pairs.drop_last());
        if has_pair_key(es, d, key_of(es, pairs.last())) {
            d
        } else {
            d.push(pairs.last())
        }
    }
}

/// The places of the producers, or of the consumers, of the pairs with the
/// key.
pub open spec fn sites(
    es: Seq<ChannelEndpoint>,
    pairs: Seq<(usize, usize)>,
    key: EdgeKey,
    producers: bool,
) -> Seq<usize>
    decreases pairs.len(),
{
    if pairs.len() == 0 {
        Seq::empty()
    } else {
        let d = sites(es, pairs.drop_last(), key, producers);
        if key_of(es, pairs.last()) != key {
            d
        } else if producers {
            d.push(pairs.last().0)
        } else {
            d.push(pairs.last().1)
        }
    }
}

/// The different ids of the endpoints at the given places.
pub open spec fn ids_at(es: Seq<ChannelEndpoint>, at: Seq<usize>) -> Seq<Seq<char>>
    decreases at.len(),
{
    if at.len() == 0 {
        Seq::empty()
    } else {
        let d = ids_at(es, at.drop_last());
        let id = es[at.last() as int].id@;
        if d.contains(id) {
            d
        } else {
            d.push(id)
        }
    }
}

/// A site is better than another: more confident, or as confident on an
/// earlier line.
pub open spec fn better(a: ChannelEndpoint, b: ChannelEndpoint) -> bool {
    a.confidence > b.confidence || (a.confidence == b.confidence && a.line < b.line)
}

/// The place of the first of the best sites.
pub open spec fn best_site(es: Seq<ChannelEndpoint>, at: Seq<usize>) -> usize
    decreases at.len(),
{
    if at.len() <= 1 {
        at[0]
    } else {
        let b = best_site(es, at.drop_last());
        if better(es[at.last() as int], es[b as int]) {
            at.last()
        } else {
            b
        }
    }
}

/// The edge that the pairs with the key make: the best site at either end,
/// weighted by the number of different producers times that of different
/// consumers, as confident as the less confident end.
pub open spec fn edge_of(
    es: Seq<ChannelEndpoint>,
    pairs: Seq<(usize, usize)>,
    key: EdgeKey,
) -> ChannelEdge {
    let ps = sites(es, pairs, key, true);
    let cs = sites(es, pairs, key, false);
    let p = es[best_site(es, ps) as int];
    let c = es[best_site(es, cs) as int];
    ChannelEdge {
        producer: p,
        consumer: c,
        weight: (ids_at(es, ps).len() * ids_at(es, cs).len()) as usize,
        confidence: if p.confidence <= c.confidence {
            p.confidence
        } else {
            c.confidence
        },
    }
}

/// The edges of pairs, one for each key, of at least the confidence asked for.
pub open spec fn edges_of(
    es: Seq<ChannelEndpoint>,
    pairs: Seq<(usize, usize)>,
    firsts: Seq<(usize, usize)>,
    min: Option<i64>,
) -> Seq<ChannelEdge>
    decreases firsts.len(),
{
    if firsts.len() == 0 {
        Seq::empty()
    } else {
        let d = edges_of(es, pairs, firsts.drop_last(), min);
        let e = edge_of(es, pairs, key_of(es, firsts.last()));
        if min is Some && e.confidence < min->0 {
            d
        } else {
            d.push(e)
        }
    }
}

/// An endpoint known as `id` stands at an end of a pair.
pub open spec fn is_matched(
    es: Seq<ChannelEndpoint>,
    pairs: Seq<(usize, usize)>,
    id: Seq<char>,
) -> bool {
    exists|i: int|
        0 <= i < pairs.len() && (es[(#[trigger] pairs[i]).0 as int].id@ == id
            || es[pairs[i].1 as int].id@ == id)
}

/// The endpoints of the role that are not matched, in order.
pub open spec fn unmatched(
    all: Seq<ChannelEndpoint>,
    pairs: Seq<(usize, usize)>,
    es: Seq<ChannelEndpoint>,
    role: ChannelRole,
) -> Seq<ChannelEndpoint>
    decreases es.len(),
{
    if es.len() == 0 {
        es
    } else {
        let d = unmatched(all, pairs, es.drop_last(), role);
        let e = es.last();
        if e.role == role && !is_matched(all, pairs, e.id@) {
            d.push(e)
        } else {
            d
        }
    }
}

/// The name that a channel is reported under: its protocol and its name.
pub open spec fn channel_name(e: ChannelEdge) -> Seq<char> {
    e.producer.protocol.text() + ":"@ + e.channel_text()
}

/// The names of the channels of edges.
pub open spec fn channel_names(edges: Seq<ChannelEdge>) -> Seq<Seq<char>> {
    Seq::new(edges.len(), |i: int| channel_name(edges[i]))
}

/// Those of `different` that stand in `names` more often than the threshold.
pub open spec fn frequent(names: Seq<Seq<char>>, different: Seq<Seq<char>>) -> Seq<Seq<char>>
    decreases different.len(),
{
    if different.len() == 0 {
        different
    } else {
        let d = frequent(names, different.drop_last());
        if occurrences(names, different.last()) > FAN_OUT_WARNING_THRESHOLD {
            d.push(different.last())
        } else {
            d
        }
    }
}

/// The channels with more edges than the threshold, sorted.
pub open spec fn noisy(edges: Seq<ChannelEdge>) -> Seq<Seq<char>> {
    sorted_texts(frequent(channel_names(edges), distinct(channel_names(edges))))
}

/// The report is the one of the endpoints.
pub open spec fn is_report(
    r: ChannelLinkReport,
    es: Seq<ChannelEndpoint>,
    min: Option<i64>,
) -> bool {
    let pairs = all_pairs(es);
    &&& r.edges@ == arranged(edges_of(es, pairs, first_pairs(es, pairs), min))
    &&& r.unmatched_producers@ == arranged(unmatched(es, pairs, es, ChannelRole::Producer))
    &&& r.unmatched_consumers@ == arranged(unmatched(es, pairs, es, ChannelRole::Consumer))
    &&& texts(r.noisy_channels@) == noisy(r.edges@)
}

/// The places in pairs are those of endpoints.
pub open spec fn in_range(pairs: Seq<(usize, usize)>, n: int) -> bool {
    forall|i: int| 0 <= i < pairs.len() ==> (#[trigger] pairs[i]).0 < n && pairs[i].1 < n
}

proof fn lemma_pairs_in_range(es: Seq<ChannelEndpoint>, i: int, n: int)
    requires
        0 <= i < es.len(),
        n <= es.len(),
        es.len() <= usize::MAX,
    ensures
        forall|k: int|
            0 <= k < pairs_of(es, i, n).len() ==> (#[trigger] pairs_of(es, i, n)[k]).1 == i
                && pairs_of(es, i, n)[k].0 < n && joined(
                es[pairs_of(es, i, n)[k].0 as int],
                es[i],
            ),
        forall|j: int|
            0 <= j < n && joined(#[trigger] es[j], es[i]) ==> pairs_of(es, i, n).contains(
                (j as usize, i as usize),
            ),
    decreases n,
{
    if n > 0 {
        lemma_pairs_in_range(es, i, n - 1);
        let d = pairs_of(es, i, n - 1);
        let p = pairs_of(es, i, n);
        assert forall|j: int| 0 <= j < n && joined(#[trigger] es[j], es[i]) implies p.contains(
            (j as usize, i as usize),
        ) by {
            if j < n - 1 {
                assert(d.contains((j as usize, i as usize)));
                let k = choose|k: int| 0 <= k < d.len() && d[k] == (j as usize, i as usize);
                assert(p[k] == (j as usize, i as usize));
            } else {
                assert(p[d.len() as int] == (j as usize, i as usize));
            }
        }
    }
}

proof fn lemma_pairs_before(es: Seq<ChannelEndpoint>, m: int)
    requires
        m <= es.len(),
        es.len() <= usize::MAX,
    ensures
        forall|k: int|
            0 <= k < pairs_before(es, m).len() ==> (#[trigger] pairs_before(es, m)[k]).1 < m
                && pairs_before(es, m)[k].0 < es.len() && joined(
                es[pairs_before(es, m)[k].0 as int],
                es[pairs_before(es, m)[k].1 as int],
            ),
        forall|j: int, i: int|
            0 <= j < es.len() && 0 <= i < m && joined(#[trigger] es[j], #[trigger] es[i])
                ==> pairs_before(es, m).contains((j as usize, i as usize)),
    decreases m,
{
    if m > 0 {
        lemma_pairs_before(es, m - 1);
        lemma_pairs_in_range(es, m - 1, es.len() as int);
        let a = pairs_before(es, m - 1);
        let b = pairs_of(es, m - 1, es.len() as int);
        let p = pairs_before(es, m);
        assert forall|k: int| 0 <= k < p.len() implies (#[trigger] p[k]).1 < m && p[k].0 < es.len()
            && joined(es[p[k].0 as int], es[p[k].1 as int]) by {
            if k < a.len() {
                assert(p[k] == a[k]);
            } else {
                assert(p[k] == b[k - a.len()]);
            }
        }
        assert forall|j: int, i: int|
            0 <= j < es.len() && 0 <= i < m && joined(#[trigger] es[j], #[trigger] es[i]) implies
        p.contains((j as usize, i as usize)) by {
            let x = (j as usize, i as usize);
            if i < m - 1 {
                assert(a.contains(x));
                let k = choose|k: int| 0 <= k < a.len() && a[k] == x;
                assert(p[k] == x);
            } else {
                assert(b.contains(x));
                let k = choose|k: int| 0 <= k < b.len() && b[k] == x;
                assert(p[a.len() + k] == x);
            }
        }
    }
}

/// The pairs are exactly the producers and consumers that are joined.
pub proof fn lemma_all_pairs(es: Seq<ChannelEndpoint>)
    requires
        es.len() <= usize::MAX,
    ensures
        in_range(all_pairs(es), es.len() as int),
        forall|k: int|
            0 <= k < all_pairs(es).len() ==> joined(
                es[(#[trigger] all_pairs(es)[k]).0 as int],
                es[all_pairs(es)[k].1 as int],
            ),
        forall|i: int, j: int|
            0 <= i < es.len() && 0 <= j < es.len() && joined(#[trigger] es[i], #[trigger] es[j])
                ==> all_pairs(es).contains((i as usize, j as usize)),
{
    lemma_pairs_before(es, es.len() as int);
}

fn channels_agree(p: &ChannelEndpoint, c: &ChannelEndpoint) -> (r: bool)
    ensures
        r == channels_match(*p, *c),
{
    if p.protocol == Protocol::Http {
        http_route_matches(p.channel_normalized.as_str(), c.channel_normalized.as_str())
    } else if c.pattern {
        !p.pattern && mqtt_topic_matches(
            c.channel_normalized.as_str(),
            p.channel_normalized.as_str(),
        )
    } else {
        same_text(p.channel_normalized.as_str(), c.channel_normalized.as_str())
    }
}

/// Pairs up the producers and consumers that are joined.
fn find_pairs(es: &[ChannelEndpoint]) -> (r: Vec<(usize, usize)>)
    ensures
        r@ == all_pairs(es@),
        in_range(r@, es@.len() as int),
{
    let mut r: Vec<(usize, usize)> = Vec::new();
    let mut i: usize = 0;
    while i < es.len()
        invariant
            i <= es@.len(),
            r@ == pairs_before(es@, i as int),
        decreases es@.len() - i,
    {
        let ghost before = r@;
        let mut j: usize = 0;
        assert(before + pairs_of(es@, i as int, 0) =~= before);
        while j < es.len()
            invariant
                i < es@.len(),
                j <= es@.len(),
                r@ == before + pairs_of(es@, i as int, j as int),
            decreases es@.len() - j,
        {
            let p = &es[j];
            let c = &es[i];
            let ghost d = pairs_of(es@, i as int, j as int);
            if p.resolved && c.resolved && p.role == ChannelRole::Producer && c.role
                == ChannelRole::Consumer && p.protocol == c.protocol && channels_agree(p, c) {
                r.push((j, i));
                assert((before + d).push((j, i)) =~= before + d.push((j, i)));
            }
            j += 1;
        }
        i += 1;
    }
    proof {
        assert(es@.len() == es.len());
        lemma_all_pairs(es@);
    }
    r
}

fn same_key(es: &[ChannelEndpoint], a: (usize, usize), b: (usize, usize)) -> (r: bool)
    requires
        a.0 < es@.len() && a.1 < es@.len(),
        b.0 < es@.len() && b.1 < es@.len(),
    ensures
        r == (key_of(es@, a) == key_of(es@, b)),
{
    same_text(es[a.0].repository_id.as_str(), es[b.0].repository_id.as_str()) && same_text(
        es[a.0].file_path.as_str(),
        es[b.0].file_path.as_str(),
    ) && same_text(es[a.1].repository_id.as_str(), es[b.1].repository_id.as_str()) && same_text(
        es[a.1].file_path.as_str(),
        es[b.1].file_path.as_str(),
    ) && same_text(es[a.1].channel_normalized.as_str(), es[b.1].channel_normalized.as_str())
}

fn find_first_pairs(es: &[ChannelEndpoint], pairs: &[(usize, usize)]) -> (r: Vec<(usize, usize)>)
    requires
        in_range(pairs@, es@.len() as int),
    ensures
        r@ == first_pairs(es@, pairs@),
        forall|k: int| 0 <= k < r@.len() ==> pairs@.contains(#[trigger] r@[k]),
{
    let mut r: Vec<(usize, usize)> = Vec::new();
    let mut i: usize = 0;
    while i < pairs.len()
        invariant
            i <= pairs@.len(),
            in_range(pairs@, es@.len() as int),
            in_range(r@, es@.len() as int),
            r@ == first_pairs(es@, pairs@.take(i as int)),
            forall|k: int| 0 <= k < r@.len() ==> pairs@.contains(#[trigger] r@[k]),
        decreases pairs@.len() - i,
    {
        proof {
            assert(pairs@.take(i + 1).drop_last() =~= pairs@.take(i as int));
            assert(pairs@.take(i + 1).last() == pairs@[i as int]);
        }
        let mut known = false;
        let mut k: usize = 0;
        while k < r.len()
            invariant
                k <= r@.len(),
                i < pairs@.len(),
                in_range(pairs@, es@.len() as int),
                in_range(r@, es@.len() as int),
                known == exists|m: int|
                    0 <= m < k && key_of(es@, #[trigger] r@[m]) == key_of(es@, pairs@[i as int]),
            decreases r@.len() - k,
        {
            assert(r@[k as int].0 < es@.len() && pairs@[i as int].0 < es@.len());
            if same_key(es, r[k], pairs[i]) {
                known = true;
            }
            k += 1;
        }
        assert(known == has_pair_key(es@, r@, key_of(es@, pairs@[i as int])));
        if !known {
            assert(pairs@.contains(pairs@[i as int]));
            assert(pairs@[i as int].0 < es@.len());
            r.push(pairs[i]);
        }
        i += 1;
    }
    assert(pairs@.take(i as int) =~= pairs@);
    r
}

fn find_sites(
    es: &[ChannelEndpoint],
    pairs: &[(usize, usize)],
    rep: (usize, usize),
    producers: bool,
) -> (r: Vec<usize>)
    requires
        in_range(pairs@, es@.len() as int),
        pairs@.contains(rep),
    ensures
        r@ == sites(es@, pairs@, key_of(es@, rep), producers),
        r@.len() > 0,
        forall|k: int| 0 <= k < r@.len() ==> (#[trigger] r@[k]) < es@.len(),
{
    let ghost key = key_of(es@, rep);
    let ghost at = choose|m: int| 0 <= m < pairs@.len() && pairs@[m] == rep;
    let mut r: Vec<usize> = Vec::new();
    let mut i: usize = 0;
    while i < pairs.len()
        invariant
            i <= pairs@.len(),
            in_range(pairs@, es@.len() as int),
            0 <= at < pairs@.len(),
            pairs@[at] == rep,
            key == key_of(es@, rep),
            r@ == sites(es@, pairs@.take(i as int), key, producers),
            i > at ==> r@.len() > 0,
            forall|k: int| 0 <= k < r@.len() ==> (#[trigger] r@[k]) < es@.len(),
        decreases pairs@.len() - i,
    {
        proof {
            assert(pairs@.take(i + 1).drop_last() =~= pairs@.take(i as int));
            assert(pairs@.take(i + 1).last() == pairs@[i as int]);
            assert(pairs@[i as int].0 < es@.len() && pairs@[at].0 < es@.len());
        }
        if same_key(es, pairs[i], rep) {
            if producers {
                r.push(pairs[i].0);
            } else {
                r.push(pairs[i].1);
            }
        }
        i += 1;
    }
    assert(pairs@.take(i as int) =~= pairs@);
    r
}

proof fn lemma_ids_len(es: Seq<ChannelEndpoint>, at: Seq<usize>)
    requires
        forall|k: int| 0 <= k < at.len() ==> (#[trigger] at[k]) < es.len(),
    ensures
        ids_at(es, at).len() <= es.len(),
{
    lemma_ids_at(es, at);
    let ids = ids_at(es, at);
    let all = Seq::new(es.len(), |i: int| es[i].id@);
    assert(ids.to_set().subset_of(all.to_set())) by {
        assert forall|x: Seq<char>| ids.to_set().contains(x) implies all.to_set().contains(x) by {
            let k = choose|k: int| 0 <= k < ids.len() && ids[k] == x;
            let i = choose|i: int| 0 <= i < es.len() && (#[trigger] es[i]).id@ == ids[k];
            assert(all[i] == x);
        }
    }
    ids.unique_seq_to_set();
    vstd::seq_lib::seq_to_set_is_finite(all);
    all.lemma_cardinality_of_set();
    vstd::set_lib::lemma_len_subset(ids.to_set(), all.to_set());
}

proof fn lemma_ids_at(es: Seq<ChannelEndpoint>, at: Seq<usize>)
    requires
        forall|k: int| 0 <= k < at.len() ==> (#[trigger] at[k]) < es.len(),
    ensures
        ids_at(es, at).no_duplicates(),
        forall|k: int|
            0 <= k < ids_at(es, at).len() ==> exists|i: int|
                0 <= i < es.len() && (#[trigger] es[i]).id@ == #[trigger] ids_at(es, at)[k],
    decreases at.len(),
{
    if at.len() > 0 {
        let d = at.drop_last();
        assert forall|k: int| 0 <= k < d.len() implies (#[trigger] d[k]) < es.len() by {
            assert(d[k] == at[k]);
        }
        lemma_ids_at(es, d);
        let ids = ids_at(es, at);
        let before = ids_at(es, d);
        assert forall|k: int| 0 <= k < ids.len() implies exists|i: int|
            0 <= i < es.len() && (#[trigger] es[i]).id@ == #[trigger] ids[k] by {
            if k < before.len() {
                assert(ids[k] == before[k]);
            } else {
                assert(at[at.len() - 1] < es.len());
                assert(es[at.last() as int].id@ == ids[k]);
            }
        }
    }
}

fn count_ids(es: &[ChannelEndpoint], at: &[usize]) -> (r: usize)
    requires
        forall|k: int| 0 <= k < at@.len() ==> (#[trigger] at@[k]) < es@.len(),
    ensures
        r == ids_at(es@, at@).len(),
        r <= es@.len(),
{
    let mut ids: Vec<String> = Vec::new();
    let mut i: usize = 0;
    assert(texts(ids@) =~= ids_at(es@, at@.take(0)));
    while i < at.len()
        invariant
            i <= at@.len(),
            forall|k: int| 0 <= k < at@.len() ==> (#[trigger] at@[k]) < es@.len(),
            texts(ids@) == ids_at(es@, at@.take(i as int)),
        decreases at@.len() - i,
    {
        let ghost before = ids@;
        proof {
            assert(at@.take(i + 1).drop_last() =~= at@.take(i as int));
            assert(at@.take(i + 1).last() == at@[i as int]);
        }
        let p: usize = at[i];
        if !has_text(&ids, es[p].id.as_str()) {
            ids.push(es[p].id.clone());
            assert(texts(ids@) =~= texts(before).push(es@[p as int].id@));
        }
        i += 1;
    }
    proof {
        assert(at@.take(i as int) =~= at@);
        assert(texts(ids@).len() == ids@.len());
        lemma_ids_len(es@, at@);
    }
    ids.len()
}

fn find_best(es: &[ChannelEndpoint], at: &[usize]) -> (r: usize)
    requires
        at@.len() > 0,
        forall|k: int| 0 <= k < at@.len() ==> (#[trigger] at@[k]) < es@.len(),
    ensures
        r == best_site(es@, at@),
        r < es@.len(),
{
    let mut best: usize = at[0];
    let mut i: usize = 1;
    while i < at.len()
        invariant
            1 <= i <= at@.len(),
            forall|k: int| 0 <= k < at@.len() ==> (#[trigger] at@[k]) < es@.len(),
            best < es@.len(),
            best == best_site(es@, at@.take(i as int)),
        decreases at@.len() - i,
    {
        proof {
            assert(at@.take(i + 1).drop_last() =~= at@.take(i as int));
            assert(at@.take(i + 1).last() == at@[i as int]);
        }
        let p: usize = at[i];
        if es[p].confidence > es[best].confidence || (es[p].confidence == es[best].confidence
            && es[p].line < es[best].line) {
            best = p;
        }
        i += 1;
    }
    assert(at@.take(i as int) =~= at@);
    best
}

fn make_edge(es: &[ChannelEndpoint], pairs: &[(usize, usize)], rep: (usize, usize)) -> (r:
    ChannelEdge)
    requires
        in_range(pairs@, es@.len() as int),
        pairs@.contains(rep),
        es@.len() * es@.len() <= usize::MAX,
    ensures
        r == edge_of(es@, pairs@, key_of(es@, rep)),
{
    let ps = find_sites(es, pairs, rep, true);
    let cs = find_sites(es, pairs, rep, false);
    let np: usize = count_ids(es, &ps);
    let nc: usize = count_ids(es, &cs);
    proof {
        let n = es@.len() as int;
        assert(np * nc <= n * n) by (nonlinear_arith)
            requires
                0 <= np <= n,
                0 <= nc <= n,
        ;
        assert(np * nc >= 0) by (nonlinear_arith)
            requires
                0 <= np,
                0 <= nc,
        ;
    }
    let weight: usize = np * nc;
    let p: usize = find_best(es, &ps);
    let c: usize = find_best(es, &cs);
    let producer = es[p].copied();
    let consumer = es[c].copied();
    let confidence: i64 = if producer.confidence <= consumer.confidence {
        producer.confidence
    } else {
        consumer.confidence
    };
    ChannelEdge { producer, consumer, weight, confidence }
}

fn make_edges(
    es: &[ChannelEndpoint],
    pairs: &[(usize, usize)],
    firsts: &[(usize, usize)],
    min: Option<i64>,
) -> (r: Vec<ChannelEdge>)
    requires
        in_range(pairs@, es@.len() as int),
        forall|k: int| 0 <= k < firsts@.len() ==> pairs@.contains(#[trigger] firsts@[k]),
        es@.len() * es@.len() <= usize::MAX,
    ensures
        r@ == edges_of(es@, pairs@, firsts@, min),
{
    let mut r: Vec<ChannelEdge> = Vec::new();
    let mut i: usize = 0;
    while i < firsts.len()
        invariant
            i <= firsts@.len(),
            in_range(pairs@, es@.len() as int),
            forall|k: int| 0 <= k < firsts@.len() ==> pairs@.contains(#[trigger] firsts@[k]),
            es@.len() * es@.len() <= usize::MAX,
            r@ == edges_of(es@, pairs@, firsts@.take(i as int), min),
        decreases firsts@.len() - i,
    {
        proof {
            assert(firsts@.take(i + 1).drop_last() =~= firsts@.take(i as int));
            assert(firsts@.take(i + 1).last() == firsts@[i as int]);
        }
        let e = make_edge(es, pairs, firsts[i]);
        let weak = match min {
            Some(m) => e.confidence < m,
            None => false,
        };
        if !weak {
            r.push(e);
        }
        i += 1;
    }
    assert(firsts@.take(i as int) =~= firsts@);
    r
}

fn find_unmatched(es: &[ChannelEndpoint], pairs: &[(usize, usize)], role: ChannelRole) -> (r: Vec<
    ChannelEndpoint,
>)
    requires
        in_range(pairs@, es@.len() as int),
    ensures
        r@ == unmatched(es@, pairs@, es@, role),
{
    let mut r: Vec<ChannelEndpoint> = Vec::new();
    let mut i: usize = 0;
    while i < es.len()
        invariant
            i <= es@.len(),
            in_range(pairs@, es@.len() as int),
            r@ == unmatched(es@, pairs@, es@.take(i as int), role),
        decreases es@.len() - i,
    {
        let e = &es[i];
        proof {
            assert(es@.take(i + 1).drop_last() =~= es@.take(i as int));
            assert(es@.take(i + 1).last() == es@[i as int]);
        }
        if e.role == role {
            let mut matched = false;
            let mut k: usize = 0;
            while k < pairs.len()
                invariant
                    k <= pairs@.len(),
                    in_range(pairs@, es@.len() as int),
                    matched == exists|m: int|
                        0 <= m < k && (es@[(#[trigger] pairs@[m]).0 as int].id@ == e.id@
                            || es@[pairs@[m].1 as int].id@ == e.id@),
                decreases pairs@.len() - k,
            {
                let (a, b) = pairs[k];
                assert(pairs@[k as int].0 < es@.len());
                if same_text(es[a].id.as_str(), e.id.as_str()) || same_text(
                    es[b].id.as_str(),
                    e.id.as_str(),
                ) {
                    matched = true;
                }
                k += 1;
            }
            assert(matched == is_matched(es@, pairs@, e.id@));
            if !matched {
                r.push(e.copied());
            }
        }
        i += 1;
    }
    assert(es@.take(i as int) =~= es@);
    r
}

fn find_noisy(edges: &[ChannelEdge]) -> (r: Vec<String>)
    ensures
        texts(r@) == noisy(edges@),
{
    let ghost want = channel_names(edges@);
    let mut names: Vec<String> = Vec::new();
    let mut different: Vec<String> = Vec::new();
    let mut i: usize = 0;
    assert(texts(names@) =~= want.take(0));
    assert(texts(different@) =~= distinct(want.take(0)));
    while i < edges.len()
        invariant
            i <= edges@.len(),
            want == channel_names(edges@),
            texts(names@) == want.take(i as int),
            texts(different@) == distinct(want.take(i as int)),
        decreases edges@.len() - i,
    {
        let mut name = edges[i].producer.protocol.as_str().to_string();
        name.append(":");
        name.append(edges[i].channel());
        let ghost v = name@;
        let ghost before = names@;
        let ghost before2 = different@;
        proof {
            assert(want.take(i + 1).drop_last() =~= want.take(i as int));
            assert(want.take(i + 1).last() == v);
            assert(want.take(i + 1) =~= want.take(i as int).push(v));
        }
        if !has_text(&different, name.as_str()) {
            different.push(name.clone());
            assert(texts(different@) =~= texts(before2).push(v));
        }
        names.push(name);
        assert(texts(names@) =~= texts(before).push(v));
        i += 1;
    }
    assert(want.take(i as int) =~= want);
    let ghost ds = texts(different@);
    let mut r: Vec<String> = Vec::new();
    let mut k: usize = 0;
    assert(texts(r@) =~= frequent(want, ds.take(0)));
    while k < different.len()
        invariant
            k <= different@.len(),
            texts(names@) == want,
            ds == texts(different@),
            texts(r@) == frequent(want, ds.take(k as int)),
        decreases different@.len() - k,
    {
        let ghost before = r@;
        proof {
            assert(ds.take(k + 1).drop_last() =~= ds.take(k as int));
            assert(ds.take(k + 1).last() == different@[k as int]@);
        }
        if count_of(&names, different[k].as_str()) > FAN_OUT_WARNING_THRESHOLD {
            r.push(different[k].clone());
            assert(texts(r@) =~= texts(before).push(different@[k as int]@));
        }
        k += 1;
    }
    assert(ds.take(k as int) =~= ds);
    sort_texts(r)
}

/// Joins endpoints into edges, and reports what is left without a partner.
pub fn build_report(endpoints: &[ChannelEndpoint], options: &ChannelLinkOptions) -> (r:
    ChannelLinkReport)
    requires
        endpoints@.len() * endpoints@.len() <= usize::MAX,
    ensures
        is_report(r, endpoints@, options.min_confidence),
{
    let pairs = find_pairs(endpoints);
    let firsts = find_first_pairs(endpoints, &pairs);
    let edges = arrange(make_edges(endpoints, &pairs, &firsts, options.min_confidence));
    let noisy_channels = find_noisy(&edges);
    let unmatched_producers = arrange(find_unmatched(endpoints, &pairs, ChannelRole::Producer));
    let unmatched_consumers = arrange(find_unmatched(endpoints, &pairs, ChannelRole::Consumer));
    ChannelLinkReport { edges, unmatched_producers, unmatched_consumers, noisy_channels }
}

/// One of the globs matches the channel of the endpoint, in its normal form or
/// as it was written.
pub open spec fn is_excluded(e: ChannelEndpoint, globs_out: Seq<String>) -> bool {
    exists|i: int|
        0 <= i < globs_out.len() && (globs((#[trigger] globs_out[i])@, e.channel_normalized@)
            || globs(globs_out[i]@, e.channel_raw@))
}

/// The endpoints that a report is asked for.
pub open spec fn selected_endpoints(es: Seq<ChannelEndpoint>, options: ChannelLinkOptions) -> Seq<
    ChannelEndpoint,
>
    decreases es.len(),
{
    if es.len() == 0 {
        es
    } else {
        let d = selected_endpoints(es.drop_last(), options);
        let e = es.last();
        if (options.protocol is Some && e.protocol != options.protocol->0) || is_excluded(
            e,
            options.exclude_channels@,
        ) {
            d
        } else {
            d.push(e)
        }
    }
}

/// Keeps the endpoints that a report is asked for.
pub fn select_endpoints(es: Vec<ChannelEndpoint>, options: &ChannelLinkOptions) -> (r: Vec<
    ChannelEndpoint,
>)
    ensures
        r@ == selected_endpoints(es@, *options),
        r@.len() <= es@.len(),
{
    let ghost all = es@;
    let mut r: Vec<ChannelEndpoint> = Vec::new();
    for e in it: es
        invariant
            it.seq() == all,
            r@ == selected_endpoints(all.take(it.index() as int), *options),
            r@.len() <= it.index(),
    {
        proof {
            let i = it.index() as int;
            assert(all.take(i + 1).drop_last() =~= all.take(i));
            assert(all.take(i + 1).last() == e);
        }
        let wanted = match options.protocol {
            Some(p) => e.protocol == p,
            None => true,
        };
        let mut excluded = false;
        let mut k: usize = 0;
        while k < options.exclude_channels.len()
            invariant
                k <= options.exclude_channels@.len(),
                excluded == exists|m: int|
                    0 <= m < k && (globs(
                        (#[trigger] options.exclude_channels@[m])@,
                        e.channel_normalized@,
                    ) || globs(options.exclude_channels@[m]@, e.channel_raw@)),
            decreases options.exclude_channels@.len() - k,
        {
            let pattern = options.exclude_channels[k].as_str();
            if glob_match(pattern, e.channel_normalized.as_str()) || glob_match(
                pattern,
                e.channel_raw.as_str(),
            ) {
                excluded = true;
            }
            k += 1;
        }
        assert(excluded == is_excluded(e, options.exclude_channels@));
        if wanted && !excluded {
            r.push(e);
        }
    }
    assert(all.take(all.len() as int) =~= all);
    r
}

/// The report of the endpoints that the options ask for.
pub fn link(endpoints: Vec<ChannelEndpoint>, options: &ChannelLinkOptions) -> (r: ChannelLinkReport)
    requires
        endpoints@.len() * endpoints@.len() <= usize::MAX,
    ensures
        is_report(r, selected_endpoints(endpoints@, *options), options.min_confidence),
{
    let ghost n = endpoints@.len() as int;
    let kept = select_endpoints(endpoints, options);
    proof {
        let k = kept@.len() as int;
        assert(k * k <= n * n) by (nonlinear_arith)
            requires
                0 <= k <= n,
        ;
    }
    build_report(&kept, options)
}

proof fn lemma_unmatched(
    all: Seq<ChannelEndpoint>,
    pairs: Seq<(usize, usize)>,
    es: Seq<ChannelEndpoint>,
    role: ChannelRole,
)
    ensures
        forall|e: ChannelEndpoint| #[trigger]
            unmatched(all, pairs, es, role).contains(e) <==> es.contains(e) && e.role == role
                && !is_matched(all, pairs, e.id@),
    decreases es.len(),
{
    if es.len() > 0 {
        let d = es.drop_last();
        lemma_unmatched(all, pairs, d, role);
        let u = unmatched(all, pairs, es, role);
        let v = unmatched(all, pairs, d, role);
        assert forall|e: ChannelEndpoint| #[trigger]
            u.contains(e) <==> es.contains(e) && e.role == role && !is_matched(
                all,
                pairs,
                e.id@,
            ) by {
            if u.contains(e) {
                let k = choose|k: int| 0 <= k < u.len() && u[k] == e;
                if k < v.len() {
                    assert(v[k] == e);
                    assert(v.contains(e));
                    let m = choose|m: int| 0 <= m < d.len() && d[m] == e;
                    assert(es[m] == e);
                } else {
                    assert(es[es.len() - 1] == e);
                }
            }
            if es.contains(e) && e.role == role && !is_matched(all, pairs, e.id@) {
                let k = choose|k: int| 0 <= k < es.len() && es[k] == e;
                if k < d.len() {
                    assert(d[k] == e);
                    assert(d.contains(e));
                    assert(v.contains(e));
                    let m = choose|m: int| 0 <= m < v.len() && v[m] == e;
                    assert(u[m] == e);
                } else {
                    assert(u[v.len() as int] == e);
                }
            }
        }
    }
}

/// Every endpoint is accounted for: it is matched, or it is reported without
/// a partner, under its role, and not both.
pub proof fn lemma_report_is_complete(r: ChannelLinkReport, es: Seq<ChannelEndpoint>, min: Option<i64>)
    requires
        is_report(r, es, min),
    ensures
        forall|e: ChannelEndpoint|
            es.contains(e) && e.role == ChannelRole::Producer ==> (
            #[trigger] r.unmatched_producers@.contains(e) <==> !is_matched(
                es,
                all_pairs(es),
                e.id@,
            )),
        forall|e: ChannelEndpoint|
            es.contains(e) && e.role == ChannelRole::Consumer ==> (
            #[trigger] r.unmatched_consumers@.contains(e) <==> !is_matched(
                es,
                all_pairs(es),
                e.id@,
            )),
{
    broadcast use vstd::seq_lib::group_to_multiset_ensures;
    let pairs = all_pairs(es);
    let ps = unmatched(es, pairs, es, ChannelRole::Producer);
    let cs = unmatched(es, pairs, es, ChannelRole::Consumer);
    lemma_unmatched(es, pairs, es, ChannelRole::Producer);
    lemma_unmatched(es, pairs, es, ChannelRole::Consumer);
    lemma_arranged(ps);
    lemma_arranged(cs);
    assert forall|e: ChannelEndpoint|
        es.contains(e) && e.role == ChannelRole::Producer implies (
    #[trigger] r.unmatched_producers@.contains(e) <==> !is_matched(es, pairs, e.id@)) by {
        assert(arranged(ps).to_multiset().count(e) == ps.to_multiset().count(e));
        assert(arranged(ps).contains(e) <==> ps.contains(e));
    }
    assert forall|e: ChannelEndpoint|
        es.contains(e) && e.role == ChannelRole::Consumer implies (
    #[trigger] r.unmatched_consumers@.contains(e) <==> !is_matched(es, pairs, e.id@)) by {
        assert(arranged(cs).to_multiset().count(e) == cs.to_multiset().count(e));
        assert(arranged(cs).contains(e) <==> cs.contains(e));
    }
}

/// An endpoint whose channel is not known by name takes part in no pair.
pub proof fn lemma_unresolved_never_pairs(es: Seq<ChannelEndpoint>, k: int)
    requires
        es.len() <= usize::MAX,
        0 <= k < all_pairs(es).len(),
    ensures
        es[all_pairs(es)[k].0 as int].resolved,
        es[all_pairs(es)[k].1 as int].resolved,
{
    lemma_all_pairs(es);
}

} // verus!

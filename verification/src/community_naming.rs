//! Display names of communities: which of them are still to be named, what the
//! model is asked, how its reply is read, and when names are stored.

use vstd::prelude::*;
use vstd::string::*;
use crate::cluster_detection::Cluster;
use crate::collections::{TextMap, TextSet, has_entry};
use crate::domain::DomainError;
use crate::json::{Reply, ReplyView, find_field, json_reply, read_json, text_field};
use crate::order::{
    Ranked, arrange, arranged, lemma_text_lt_irreflexive, lemma_text_order, text_less, text_lt,
};
use crate::paths::{ancestor_dir_frequencies, count_under};
use crate::rrf::at_most;
use crate::symbol_cluster_detection::SymbolCommunity;
use crate::text::{
    chars_of, decimal, decimal_text, has_text, lines, lines_of, opt_text, rows, string_of,
    strip_end, strip_start, stripped_end, stripped_start, texts, trim, trimmed,
};

verus! {

/// How many names are asked for at once, and how many are stored together.
pub const NAMING_CONCURRENCY: usize = 6;

/// Seconds that the first request for a name may take.
pub const PROBE_TIMEOUT_SECONDS: u64 = 90;

/// The instruction to the model.
pub const SYSTEM_PROMPT: &'static str =
    "You name software modules. Given a group of related files or code symbols from one repository, reply with a concise, human-readable name (2–5 words, Title Case) that captures what the group is about. Prefer domain concepts over generic words. Do not include the repository name, punctuation, or any explanation.";

/// How many members the model is shown.
pub const MEMBERS_IN_PROMPT: usize = 25;

/// The ids that are being named.
pub struct NamingRegistry {
    in_flight: TextSet,
}

/// Ids claimed for naming.
#[derive(Debug)]
pub struct NamingClaim {
    pub ids: Vec<String>,
}

/// The ids that are not in the set, each where it first stands.
pub open spec fn unclaimed(in_flight: Set<Seq<char>>, ids: Seq<Seq<char>>) -> Seq<Seq<char>>
    decreases ids.len(),
{
    if ids.len() == 0 {
        ids
    } else {
        let d = unclaimed(in_flight, ids.drop_last());
        if in_flight.contains(ids.last()) || d.contains(ids.last()) {
            d
        } else {
            d.push(ids.last())
        }
    }
}

/// The set of the texts of a list.
pub open spec fn text_set(ids: Seq<Seq<char>>) -> Set<Seq<char>> {
    Set::new(|x: Seq<char>| ids.contains(x))
}

proof fn lemma_unclaimed(in_flight: Set<Seq<char>>, ids: Seq<Seq<char>>)
    ensures
        unclaimed(in_flight, ids).no_duplicates(),
        forall|x: Seq<char>| #[trigger]
            unclaimed(in_flight, ids).contains(x) <==> ids.contains(x) && !in_flight.contains(x),
    decreases ids.len(),
{
    if ids.len() > 0 {
        let p = ids.drop_last();
        lemma_unclaimed(in_flight, p);
        let d = unclaimed(in_flight, p);
        let u = unclaimed(in_flight, ids);
        assert forall|x: Seq<char>| #[trigger]
            u.contains(x) <==> ids.contains(x) && !in_flight.contains(x) by {
            if u.contains(x) {
                let k = choose|k: int| 0 <= k < u.len() && u[k] == x;
                if k < d.len() {
                    assert(d[k] == x);
                    assert(d.contains(x));
                    let i = choose|i: int| 0 <= i < p.len() && p[i] == x;
                    assert(ids[i] == x);
                } else {
                    assert(ids[ids.len() - 1] == x);
                }
            }
            if ids.contains(x) && !in_flight.contains(x) {
                let i = choose|i: int| 0 <= i < ids.len() && ids[i] == x;
                if i < p.len() {
                    assert(p[i] == x);
                    assert(p.contains(x));
                    assert(d.contains(x));
                    let k = choose|k: int| 0 <= k < d.len() && d[k] == x;
                    assert(u[k] == x);
                } else if d.contains(x) {
                    let k = choose|k: int| 0 <= k < d.len() && d[k] == x;
                    assert(u[k] == x);
                } else {
                    assert(u[d.len() as int] == x);
                }
            }
        }
    }
}

/// While ids are claimed, a second claim of them takes nothing.
pub proof fn lemma_claimed_ids_are_refused(
    in_flight: Set<Seq<char>>,
    ids: Seq<Seq<char>>,
    again: Seq<Seq<char>>,
)
    requires
        forall|x: Seq<char>| again.contains(x) ==> ids.contains(x),
    ensures
        unclaimed(in_flight.union(text_set(ids)), again).len() == 0,
{
    let set = in_flight.union(text_set(ids));
    lemma_unclaimed(set, again);
    let u = unclaimed(set, again);
    if u.len() > 0 {
        assert(u.contains(u[0]));
    }
}

/// Releasing what a claim took leaves the set as it was before.
pub proof fn lemma_release_undoes_claim(in_flight: Set<Seq<char>>, ids: Seq<Seq<char>>)
    ensures
        in_flight.union(text_set(ids)).difference(text_set(unclaimed(in_flight, ids)))
            =~= in_flight,
{
    lemma_unclaimed(in_flight, ids);
}

/// A claim takes the ids that nobody holds, all of them, and no other.
pub proof fn lemma_claim_takes_the_rest(in_flight: Set<Seq<char>>, ids: Seq<Seq<char>>, x: Seq<char>)
    ensures
        unclaimed(in_flight, ids).contains(x) <==> ids.contains(x) && !in_flight.contains(x),
        unclaimed(in_flight, ids).no_duplicates(),
{
    lemma_unclaimed(in_flight, ids);
}

impl NamingRegistry {
    /// The ids that are being named.
    pub closed spec fn claimed(self) -> Set<Seq<char>> {
        self.in_flight@
    }

    pub fn new() -> (r: NamingRegistry)
        ensures
            r.claimed() == Set::<Seq<char>>::empty(),
    {
        NamingRegistry { in_flight: TextSet::new() }
    }

    /// Claims the ids that nobody names yet; nothing where all are being named.
    pub fn claim(&mut self, ids: Vec<String>) -> (r: Option<NamingClaim>)
        ensures
            final(self).claimed() == old(self).claimed().union(text_set(texts(ids@))),
            r is Some == (unclaimed(old(self).claimed(), texts(ids@)).len() > 0),
            r matches Some(c) ==> texts(c.ids@) == unclaimed(old(self).claimed(), texts(ids@)),
    {
        let ghost before = self.claimed();
        let ghost all = texts(ids@);
        let mut taken: Vec<String> = Vec::new();
        let mut i: usize = 0;
        proof {
            assert(texts(taken@) =~= unclaimed(before, all.take(0)));
            assert(before =~= before.union(text_set(all.take(0))));
        }
        while i < ids.len()
            invariant
                i <= ids@.len(),
                all == texts(ids@),
                self.claimed() == before.union(text_set(all.take(i as int))),
                texts(taken@) == unclaimed(before, all.take(i as int)),
            decreases ids@.len() - i,
        {
            let ghost done = all.take(i as int);
            let ghost next = all.take(i + 1);
            let ghost old_taken = taken@;
            let ghost x = ids@[i as int]@;
            proof {
                assert(next.drop_last() =~= done);
                assert(next.last() == x);
                lemma_unclaimed(before, done);
                assert(next =~= done.push(x));
            }
            let fresh = self.in_flight.insert(ids[i].clone());
            if fresh {
                taken.push(ids[i].clone());
                assert(texts(taken@) =~= texts(old_taken).push(x));
            }
            proof {
                assert forall|y: Seq<char>| next.contains(y) <==> done.contains(y) || y == x by {
                    if done.contains(y) {
                        let k = choose|k: int| 0 <= k < done.len() && done[k] == y;
                        assert(next[k] == y);
                    }
                    if y == x {
                        assert(next[i as int] == y);
                    }
                }
                assert(self.claimed() =~= before.union(text_set(next)));
            }
            i += 1;
        }
        proof {
            assert(all.take(i as int) =~= all);
            assert(texts(taken@).len() == taken@.len());
        }
        if taken.len() == 0 {
            None
        } else {
            Some(NamingClaim { ids: taken })
        }
    }

    /// Gives ids back.
    pub fn release(&mut self, ids: &[String])
        ensures
            final(self).claimed() == old(self).claimed().difference(text_set(texts(ids@))),
    {
        let ghost before = self.claimed();
        let ghost all = texts(ids@);
        let mut i: usize = 0;
        assert(before =~= before.difference(text_set(all.take(0))));
        while i < ids.len()
            invariant
                i <= ids@.len(),
                all == texts(ids@),
                self.claimed() == before.difference(text_set(all.take(i as int))),
            decreases ids@.len() - i,
        {
            let ghost done = all.take(i as int);
            let ghost next = all.take(i + 1);
            let ghost x = ids@[i as int]@;
            self.in_flight.remove(ids[i].as_str());
            proof {
                assert(next =~= done.push(x));
                assert forall|y: Seq<char>| next.contains(y) <==> done.contains(y) || y == x by {
                    if done.contains(y) {
                        let k = choose|k: int| 0 <= k < done.len() && done[k] == y;
                        assert(next[k] == y);
                    }
                    if y == x {
                        assert(next[i as int] == y);
                    }
                }
                assert(self.claimed() =~= before.difference(text_set(next)));
            }
            i += 1;
        }
        assert(all.take(i as int) =~= all);
    }
}

/// Anything that can be named.
pub trait Nameable: Sized {
    spec fn id_text(self) -> Seq<char>;

    spec fn member_texts(self) -> Seq<Seq<char>>;

    spec fn shown_name(self) -> Option<Seq<char>>;

    /// All of the item but the name that it shows.
    spec fn nameless(self) -> Self;

    fn id(&self) -> (r: &str)
        ensures
            r@ == self.id_text(),
    ;

    fn members(&self) -> (r: &[String])
        ensures
            texts(r@) == self.member_texts(),
    ;

    fn set_display_name(&mut self, name: String)
        ensures
            final(self).id_text() == old(self).id_text(),
            final(self).member_texts() == old(self).member_texts(),
            final(self).nameless() == old(self).nameless(),
            final(self).shown_name() == Some(name@),
    ;
}

impl Nameable for Cluster {
    open spec fn id_text(self) -> Seq<char> {
        self.id@
    }

    open spec fn member_texts(self) -> Seq<Seq<char>> {
        texts(self.members@)
    }

    open spec fn shown_name(self) -> Option<Seq<char>> {
        opt_text(self.display_name)
    }

    open spec fn nameless(self) -> Self {
        Cluster { display_name: None, ..self }
    }

    fn id(&self) -> (r: &str) {
        self.id.as_str()
    }

    fn members(&self) -> (r: &[String]) {
        self.members.as_slice()
    }

    fn set_display_name(&mut self, name: String) {
        self.display_name = Some(name);
    }
}

impl Nameable for SymbolCommunity {
    open spec fn id_text(self) -> Seq<char> {
        self.id@
    }

    open spec fn member_texts(self) -> Seq<Seq<char>> {
        texts(self.members@)
    }

    open spec fn shown_name(self) -> Option<Seq<char>> {
        opt_text(self.display_name)
    }

    open spec fn nameless(self) -> Self {
        SymbolCommunity { display_name: None, ..self }
    }

    fn id(&self) -> (r: &str) {
        self.id.as_str()
    }

    fn members(&self) -> (r: &[String]) {
        self.members.as_slice()
    }

    fn set_display_name(&mut self, name: String) {
        self.display_name = Some(name);
    }
}

/// The item differs in nothing but the name that it shows.
pub open spec fn same_but_name<T: Nameable>(a: T, b: T) -> bool {
    &&& a.nameless() == b.nameless()
    &&& a.id_text() == b.id_text()
    &&& a.member_texts() == b.member_texts()
}

/// The places of the items whose id has no name yet, rising.
pub open spec fn unnamed<T: Nameable>(items: Seq<T>, cached: Set<Seq<char>>) -> Seq<usize>
    decreases items.len(),
{
    if items.len() == 0 {
        Seq::empty()
    } else {
        let d = unnamed(items.drop_last(), cached);
        if cached.contains(items.last().id_text()) {
            d
        } else {
            d.push((items.len() - 1) as usize)
        }
    }
}

/// Names the items whose names are known, and lists the places of the others.
pub fn apply_known_names<T: Nameable>(items: &mut Vec<T>, cached: &TextMap<String>) -> (r: Vec<
    usize,
>)
    ensures
        final(items)@.len() == old(items)@.len(),
        forall|i: int|
            0 <= i < old(items)@.len() ==> same_but_name(
                #[trigger] final(items)@[i],
                old(items)@[i],
            ),
        forall|i: int|
            0 <= i < old(items)@.len() && cached@.contains_key(old(items)@[i].id_text()) ==> (
            #[trigger] final(items)@[i]).shown_name() == Some(
                cached@[old(items)@[i].id_text()]@,
            ),
        forall|i: int|
            0 <= i < old(items)@.len() && !cached@.contains_key(old(items)@[i].id_text())
                ==> #[trigger] final(items)@[i] == old(items)@[i],
        r@ == unnamed(old(items)@, cached@.dom()),
{
    let ghost before = items@;
    let mut r: Vec<usize> = Vec::new();
    let mut i: usize = 0;
    while i < items.len()
        invariant
            i <= items@.len(),
            items@.len() == before.len(),
            forall|k: int| 0 <= k < i ==> same_but_name(#[trigger] items@[k], before[k]),
            forall|k: int|
                0 <= k < i && cached@.contains_key(before[k].id_text()) ==> (
                #[trigger] items@[k]).shown_name() == Some(cached@[before[k].id_text()]@),
            forall|k: int|
                0 <= k < i && !cached@.contains_key(before[k].id_text()) ==> #[trigger] items@[k]
                    == before[k],
            forall|k: int| i <= k < before.len() ==> #[trigger] items@[k] == before[k],
            r@ == unnamed(before.take(i as int), cached@.dom()),
        decreases items@.len() - i,
    {
        proof {
            assert(before.take(i + 1).drop_last() =~= before.take(i as int));
            assert(before.take(i + 1).last() == before[i as int]);
        }
        let name = match cached.get(items[i].id()) {
            Some(n) => Some(n.clone()),
            None => None,
        };
        match name {
            Some(n) => {
                let mut item = items.remove(i);
                item.set_display_name(n);
                items.insert(i, item);
            },
            None => {
                r.push(i);
            },
        }
        i += 1;
    }
    assert(before.take(i as int) =~= before);
    r
}

/// The ids of the items at the given places.
pub open spec fn ids_at<T: Nameable>(items: Seq<T>, places: Seq<usize>) -> Seq<Seq<char>> {
    Seq::new(places.len(), |i: int| items[places[i] as int].id_text())
}

/// The ids of the items at the given places: those to be claimed.
pub fn missing_ids<T: Nameable>(items: &[T], places: &[usize]) -> (r: Vec<String>)
    requires
        forall|i: int| 0 <= i < places@.len() ==> (#[trigger] places@[i]) < items@.len(),
    ensures
        texts(r@) == ids_at(items@, places@),
{
    let mut r: Vec<String> = Vec::new();
    let mut i: usize = 0;
    while i < places.len()
        invariant
            i <= places@.len(),
            forall|i: int| 0 <= i < places@.len() ==> (#[trigger] places@[i]) < items@.len(),
            r@.len() == i,
            forall|k: int|
                0 <= k < i ==> #[trigger] r@[k]@ == items@[places@[k] as int].id_text(),
        decreases places@.len() - i,
    {
        assert(places@[i as int] < items@.len());
        r.push(items[places[i]].id().to_string());
        i += 1;
    }
    assert(texts(r@) =~= ids_at(items@, places@));
    r
}

/// The places of items whose id is among those claimed.
pub open spec fn claimed_places<T: Nameable>(
    items: Seq<T>,
    places: Seq<usize>,
    claimed: Seq<Seq<char>>,
) -> Seq<usize>
    decreases places.len(),
{
    if places.len() == 0 {
        places
    } else {
        let d = claimed_places(items, places.drop_last(), claimed);
        if claimed.contains(items[places.last() as int].id_text()) {
            d.push(places.last())
        } else {
            d
        }
    }
}

/// Keeps the places of items whose id is claimed.
pub fn keep_claimed<T: Nameable>(items: &[T], places: &[usize], claimed: &[String]) -> (r: Vec<
    usize,
>)
    requires
        forall|i: int| 0 <= i < places@.len() ==> (#[trigger] places@[i]) < items@.len(),
    ensures
        r@ == claimed_places(items@, places@, texts(claimed@)),
{
    let mut r: Vec<usize> = Vec::new();
    let mut i: usize = 0;
    while i < places.len()
        invariant
            i <= places@.len(),
            forall|i: int| 0 <= i < places@.len() ==> (#[trigger] places@[i]) < items@.len(),
            r@ == claimed_places(items@, places@.take(i as int), texts(claimed@)),
        decreases places@.len() - i,
    {
        proof {
            assert(places@.take(i + 1).drop_last() =~= places@.take(i as int));
            assert(places@.take(i + 1).last() == places@[i as int]);
            assert(places@[i as int] < items@.len());
        }
        if has_text(claimed, items[places[i]].id()) {
            r.push(places[i]);
        }
        i += 1;
    }
    assert(places@.take(i as int) =~= places@);
    r
}

/// Names that wait to be stored, with what is to be stored now.
pub type NameRow = (Seq<char>, Seq<char>);

/// What names say: the id and the name of each.
pub open spec fn name_rows(s: Seq<(String, String)>) -> Seq<NameRow> {
    Seq::new(s.len(), |i: int| (s[i].0@, s[i].1@))
}

/// The names that wait once a reply has come, and those to be stored: the full
/// batch, or none.
pub open spec fn after_reply(
    pending: Seq<NameRow>,
    id: Seq<char>,
    reply: Option<Seq<char>>,
) -> (Seq<NameRow>, Seq<NameRow>) {
    let all = match reply {
        Some(name) => pending.push((id, name)),
        None => pending,
    };
    if all.len() >= NAMING_CONCURRENCY {
        (Seq::empty(), all)
    } else {
        (all, Seq::empty())
    }
}

/// Takes in one reply: names the item, and hands out the names to be stored
/// once a batch is full. A reply without a name changes nothing.
pub fn take_reply<T: Nameable>(
    items: &mut Vec<T>,
    pending: &mut Vec<(String, String)>,
    at: usize,
    reply: Option<String>,
) -> (r: Vec<(String, String)>)
    requires
        at < old(items)@.len(),
    ensures
        final(items)@.len() == old(items)@.len(),
        forall|i: int|
            0 <= i < old(items)@.len() && i != at ==> #[trigger] final(items)@[i]
                == old(items)@[i],
        same_but_name(final(items)@[at as int], old(items)@[at as int]),
        reply is None ==> final(items)@[at as int] == old(items)@[at as int],
        reply matches Some(n) ==> final(items)@[at as int].shown_name() == Some(n@),
        (name_rows(final(pending)@), name_rows(r@)) == after_reply(
            name_rows(old(pending)@),
            old(items)@[at as int].id_text(),
            opt_text(reply),
        ),
{
    let ghost waiting = name_rows(pending@);
    let ghost before = items@;
    let ghost id = items@[at as int].id_text();
    let ghost rep = opt_text(reply);
    let ghost all = match rep {
        Some(name) => waiting.push((id, name)),
        None => waiting,
    };
    match reply {
        Some(name) => {
            let ghost old_pending = pending@;
            let row = (items[at].id().to_string(), name.clone());
            pending.push(row);
            let mut item = items.remove(at);
            item.set_display_name(name);
            items.insert(at, item);
            assert(name_rows(pending@) =~= waiting.push((id, name@)));
        },
        None => {},
    }
    assert(name_rows(pending@) == all);
    assert(all.len() == pending@.len());
    if pending.len() >= NAMING_CONCURRENCY {
        let mut r: Vec<(String, String)> = Vec::new();
        r.append(pending);
        proof {
            assert(name_rows(pending@) =~= Seq::<NameRow>::empty());
            assert(name_rows(r@) =~= all);
        }
        r
    } else {
        let r: Vec<(String, String)> = Vec::new();
        assert(name_rows(r@) =~= Seq::<NameRow>::empty());
        r
    }
}

/// What becomes of the first request for a name.
#[derive(Debug)]
pub enum ProbeOutcome {
    /// The model does not answer: no more names are asked for.
    Unavailable,
    /// The first name is to be stored, and the others asked for.
    Proceed(Vec<(String, String)>),
}

/// Takes in the reply to the first request. Where there is none, naming ends
/// and nothing changes.
pub fn take_probe<T: Nameable>(items: &mut Vec<T>, at: usize, reply: Option<String>) -> (r:
    ProbeOutcome)
    requires
        at < old(items)@.len(),
    ensures
        final(items)@.len() == old(items)@.len(),
        forall|i: int|
            0 <= i < old(items)@.len() && i != at ==> #[trigger] final(items)@[i]
                == old(items)@[i],
        same_but_name(final(items)@[at as int], old(items)@[at as int]),
        reply is None ==> final(items)@[at as int] == old(items)@[at as int] && r is Unavailable,
        reply matches Some(n) ==> final(items)@[at as int].shown_name() == Some(n@)
            && r is Proceed && name_rows(r->Proceed_0@) == seq![
            (old(items)@[at as int].id_text(), n@),
        ],
{
    match reply {
        None => ProbeOutcome::Unavailable,
        Some(name) => {
            let ghost id = items@[at as int].id_text();
            let mut rows: Vec<(String, String)> = Vec::new();
            rows.push((items[at].id().to_string(), name.clone()));
            assert(name_rows(rows@) =~= seq![(id, name@)]);
            let mut item = items.remove(at);
            item.set_display_name(name);
            items.insert(at, item);
            ProbeOutcome::Proceed(rows)
        },
    }
}

/// The names that replies bring, in order.
pub open spec fn names_brought(events: Seq<(Seq<char>, Option<Seq<char>>)>) -> Seq<NameRow>
    decreases events.len(),
{
    if events.len() == 0 {
        Seq::empty()
    } else {
        let d = names_brought(events.drop_last());
        match events.last().1 {
            Some(name) => d.push((events.last().0, name)),
            None => d,
        }
    }
}

/// What waits and what has been stored once all replies have come.
pub open spec fn after_replies(events: Seq<(Seq<char>, Option<Seq<char>>)>) -> (
    Seq<NameRow>,
    Seq<NameRow>,
)
    decreases events.len(),
{
    if events.len() == 0 {
        (Seq::empty(), Seq::empty())
    } else {
        let (pending, stored) = after_replies(events.drop_last());
        let (waits, batch) = after_reply(pending, events.last().0, events.last().1);
        (waits, stored + batch)
    }
}

/// Every name that a reply brings is stored or waits, once and in order, and
/// less than a full batch waits.
pub proof fn lemma_no_name_is_lost(events: Seq<(Seq<char>, Option<Seq<char>>)>)
    ensures
        after_replies(events).1 + after_replies(events).0 == names_brought(events),
        after_replies(events).0.len() < NAMING_CONCURRENCY,
    decreases events.len(),
{
    if events.len() > 0 {
        lemma_no_name_is_lost(events.drop_last());
        let (pending, stored) = after_replies(events.drop_last());
        let (id, reply) = events.last();
        let (waits, batch) = after_reply(pending, id, reply);
        match reply {
            Some(name) => {
                assert((stored + batch) + waits =~= (stored + pending).push((id, name)));
            },
            None => {
                assert((stored + batch) + waits =~= stored + pending);
            },
        }
    } else {
        assert(after_replies(events).1 + after_replies(events).0 =~= Seq::<NameRow>::empty());
    }
}

/// How many slashes the text has.
pub open spec fn slashes(s: Seq<char>) -> nat
    decreases s.len(),
{
    if s.len() == 0 {
        0
    } else {
        slashes(s.drop_last()) + if s.last() == '/' {
            1nat
        } else {
            0
        }
    }
}

fn count_slashes(s: &str) -> (r: usize)
    ensures
        r == slashes(s@),
{
    let cs = chars_of(s);
    let mut n: usize = 0;
    let mut i: usize = 0;
    while i < cs.len()
        invariant
            i <= cs@.len(),
            n <= i,
            n == slashes(cs@.take(i as int)),
        decreases cs@.len() - i,
    {
        proof {
            assert(cs@.take(i + 1).drop_last() =~= cs@.take(i as int));
            assert(cs@.take(i + 1).last() == cs@[i as int]);
        }
        if cs[i] == '/' {
            n += 1;
        }
        i += 1;
    }
    assert(cs@.take(i as int) =~= cs@);
    n
}

impl Ranked for (String, usize) {
    /// Those with most members first, then the deeper, then by name.
    open spec fn ranks_before(self, other: Self) -> bool {
        ||| self.1 > other.1
        ||| self.1 == other.1 && slashes(self.0@) > slashes(other.0@)
        ||| self.1 == other.1 && slashes(self.0@) == slashes(other.0@) && text_lt(
            self.0@,
            other.0@,
        )
    }

    fn goes_before(&self, other: &Self) -> (r: bool) {
        if self.1 != other.1 {
            return self.1 > other.1;
        }
        let a: usize = count_slashes(self.0.as_str());
        let b: usize = count_slashes(other.0.as_str());
        if a != b {
            a > b
        } else {
            text_less(self.0.as_str(), other.0.as_str())
        }
    }

    proof fn rank_laws(a: Self, b: Self, c: Self) {
        lemma_text_order(a.0@, b.0@, c.0@);
    }
}

/// The list has each directory above the members once, with how many of them
/// lie under it.
pub open spec fn lists_directories(all: Seq<(String, usize)>, members: Seq<Seq<char>>) -> bool {
    &&& forall|i: int|
        0 <= i < all.len() ==> count_under(members, (#[trigger] all[i]).0@) > 0 && all[i].1
            == count_under(members, all[i].0@)
    &&& forall|i: int, j: int|
        0 <= i < j < all.len() ==> (#[trigger] all[i]).0@ != (#[trigger] all[j]).0@
    &&& forall|d: Seq<char>|
        #[trigger] count_under(members, d) > 0 ==> exists|i: int|
            0 <= i < all.len() && (#[trigger] all[i]).0@ == d
}

/// The three directories that most members lie under.
pub fn top_directories(members: &[String]) -> (r: Vec<(String, usize)>)
    ensures
        exists|all: Seq<(String, usize)>| #[trigger]
            lists_directories(all, texts(members@)) && r@ == at_most(arranged(all), 3),
{
    let freq = ancestor_dir_frequencies(members);
    let ghost ms = texts(members@);
    let n: usize = freq.len();
    let ghost map = freq@;
    let ghost listing = freq.listing();
    let mut dirs: Vec<(String, usize)> = Vec::new();
    let mut i: usize = 0;
    while i < n
        invariant
            i <= n,
            n == listing.len(),
            listing == freq.listing(),
            dirs@.len() == i,
            forall|k: int|
                0 <= k < i ==> (#[trigger] dirs@[k]).0@ == listing[k].key@ && dirs@[k].1
                    == listing[k].value,
        decreases n - i,
    {
        let e = freq.at(i);
        dirs.push((e.key.clone(), e.value));
        i += 1;
    }
    proof {
        let all = dirs@;
        assert forall|i: int| 0 <= i < all.len() implies count_under(ms, (#[trigger] all[i]).0@) > 0
            && all[i].1 == count_under(ms, all[i].0@) by {
            assert(map.contains_key(listing[i].key@));
        }
        assert forall|i: int, j: int| 0 <= i < j < all.len() implies (#[trigger] all[i]).0@ != (
        #[trigger] all[j]).0@ by {
            assert(text_lt(listing[i].key@, listing[j].key@));
            lemma_text_lt_irreflexive(listing[i].key@);
        }
        assert forall|d: Seq<char>| #[trigger] count_under(ms, d) > 0 implies exists|i: int|
            0 <= i < all.len() && (#[trigger] all[i]).0@ == d by {
            assert(map.contains_key(d));
            assert(has_entry(listing, d));
            let k = choose|k: int| 0 <= k < listing.len() && (#[trigger] listing[k]).key@ == d;
            assert(all[k].0@ == d);
        }
        assert(lists_directories(all, ms));
    }
    let mut r = arrange(dirs);
    if r.len() > 3 {
        r.truncate(3);
        assert(r@ =~= arranged(dirs@).take(3));
    }
    r
}

/// The rows of members that the model is shown.
pub open spec fn member_rows(members: Seq<Seq<char>>) -> Seq<char>
    decreases members.len(),
{
    if members.len() == 0 {
        Seq::empty()
    } else {
        member_rows(members.drop_last()) + "  - "@ + members.last() + "\n"@
    }
}

/// The rows of directories that the model is shown.
pub open spec fn directory_rows(dirs: Seq<(String, usize)>) -> Seq<char>
    decreases dirs.len(),
{
    if dirs.len() == 0 {
        Seq::empty()
    } else {
        directory_rows(dirs.drop_last()) + "  - "@ + dirs.last().0@ + " ("@ + decimal(
            dirs.last().1 as nat,
        ) + " members)\n"@
    }
}

/// The question for a name: a sample of the members and the directories that
/// most of them share.
pub open spec fn name_prompt(members: Seq<Seq<char>>, dirs: Seq<(String, usize)>) -> Seq<char> {
    "This group has "@ + decimal(members.len()) + " members. "@ + "A sample of member names:\n"@
        + member_rows(at_most(members, MEMBERS_IN_PROMPT as int)) + (if members.len()
        > MEMBERS_IN_PROMPT {
        "  … and "@ + decimal((members.len() - MEMBERS_IN_PROMPT) as nat) + " more\n"@
    } else {
        Seq::empty()
    }) + (if dirs.len() > 0 {
        "\nCommon locations:\n"@ + directory_rows(dirs)
    } else {
        Seq::empty()
    }) + "\nReply with the module name only."@
}

fn show_members(members: &[String], n: usize) -> (r: String)
    requires
        n <= members@.len(),
    ensures
        r@ == member_rows(texts(members@).take(n as int)),
{
    let ghost all = texts(members@);
    let mut r = String::new();
    let mut i: usize = 0;
    while i < n
        invariant
            i <= n <= members@.len(),
            all == texts(members@),
            r@ == member_rows(all.take(i as int)),
        decreases n - i,
    {
        proof {
            assert(all.take(i + 1).drop_last() =~= all.take(i as int));
            assert(all.take(i + 1).last() == members@[i as int]@);
        }
        r.append("  - ");
        r.append(members[i].as_str());
        r.append("\n");
        i += 1;
    }
    r
}

fn show_directories(dirs: &[(String, usize)]) -> (r: String)
    ensures
        r@ == directory_rows(dirs@),
{
    let mut r = String::new();
    let mut i: usize = 0;
    while i < dirs.len()
        invariant
            i <= dirs@.len(),
            r@ == directory_rows(dirs@.take(i as int)),
        decreases dirs@.len() - i,
    {
        proof {
            assert(dirs@.take(i + 1).drop_last() =~= dirs@.take(i as int));
            assert(dirs@.take(i + 1).last() == dirs@[i as int]);
        }
        r.append("  - ");
        r.append(dirs[i].0.as_str());
        r.append(" (");
        r.append(decimal_text(dirs[i].1 as u64).as_str());
        r.append(" members)\n");
        i += 1;
    }
    assert(dirs@.take(i as int) =~= dirs@);
    r
}

/// The question for a name.
pub fn build_prompt(members: &[String]) -> (r: String)
    ensures
        exists|all: Seq<(String, usize)>| #[trigger]
            lists_directories(all, texts(members@)) && r@ == name_prompt(
                texts(members@),
                at_most(arranged(all), 3),
            ),
{
    let ghost all = texts(members@);
    assert(all.len() == members@.len());
    let mut r = "This group has ".to_string();
    r.append(decimal_text(members.len() as u64).as_str());
    r.append(" members. ");
    r.append("A sample of member names:\n");
    let shown: usize = if members.len() > MEMBERS_IN_PROMPT {
        MEMBERS_IN_PROMPT
    } else {
        members.len()
    };
    assert(all.take(shown as int) =~= at_most(all, MEMBERS_IN_PROMPT as int));
    r.append(show_members(members, shown).as_str());
    let ghost head = r@;
    if members.len() > MEMBERS_IN_PROMPT {
        r.append("  … and ");
        r.append(decimal_text((members.len() - MEMBERS_IN_PROMPT) as u64).as_str());
        r.append(" more\n");
        assert(r@ =~= head + ("  … and "@ + decimal((all.len() - MEMBERS_IN_PROMPT) as nat)
            + " more\n"@));
    } else {
        assert(r@ =~= head + Seq::<char>::empty());
    }
    let ghost middle = r@;
    let dirs = top_directories(members);
    if dirs.len() > 0 {
        r.append("\nCommon locations:\n");
        r.append(show_directories(&dirs).as_str());
        assert(r@ =~= middle + ("\nCommon locations:\n"@ + directory_rows(dirs@)));
    } else {
        assert(r@ =~= middle + Seq::<char>::empty());
    }
    r.append("\nReply with the module name only.");
    r
}

/// The first of the lines that is not blank, without the space around it.
pub open spec fn first_line(lines: Seq<Seq<char>>) -> Option<Seq<char>>
    decreases lines.len(),
{
    if lines.len() == 0 {
        None
    } else if trim(lines[0]).len() > 0 {
        Some(trim(lines[0]))
    } else {
        first_line(lines.skip(1))
    }
}

/// The name that a reply gives: the `name` of an object, else a bare string,
/// else the first line that is not blank.
pub open spec fn reply_name(reply: ReplyView, raw: Seq<char>) -> Option<Seq<char>> {
    match reply {
        ReplyView::Object(fields) if text_field(fields, "name"@) is Some => text_field(
            fields,
            "name"@,
        ),
        ReplyView::Text(s) => Some(s),
        _ => first_line(lines(raw)),
    }
}

fn find_line(raw: &str) -> (r: Option<String>)
    ensures
        opt_text(r) == first_line(lines(raw@)),
{
    let cs = chars_of(raw);
    let all = lines_of(&cs);
    let ghost rs = rows(all@);
    let mut i: usize = 0;
    assert(rs.skip(0) =~= rs);
    while i < all.len()
        invariant
            i <= all@.len(),
            rs == rows(all@),
            rs == lines(raw@),
            first_line(rs) == first_line(rs.skip(i as int)),
        decreases all@.len() - i,
    {
        proof {
            assert(rs.skip(i as int)[0] == all@[i as int]@);
            assert(rs.skip(i as int).skip(1) =~= rs.skip(i + 1));
        }
        let line = trimmed(&all[i]);
        if line.len() > 0 {
            return Some(string_of(line));
        }
        i += 1;
    }
    None
}

/// The name that a reply gives, with what the reply is as JSON.
pub fn choose_name(reply: Reply, raw: &str) -> (r: Option<String>)
    ensures
        opt_text(r) == reply_name(reply@, raw@),
{
    match reply {
        Reply::Object(fields) => match find_field(&fields, "name") {
            Some(n) => Some(n.clone()),
            None => find_line(raw),
        },
        Reply::Text(s) => Some(s),
        _ => find_line(raw),
    }
}

/// The name that a reply gives.
pub fn parse_name(raw: &str) -> (r: Option<String>)
    ensures
        opt_text(r) == reply_name(json_reply(raw@), raw@),
{
    choose_name(read_json(raw), raw)
}

/// The name without quotes and space around it.
pub open spec fn bare(name: Seq<char>) -> Seq<char> {
    trim(strip_end(strip_start(trim(name), '"'), '"'))
}

/// The message for a reply without a name.
pub const EMPTY_NAME: &'static str = "LLM returned an empty community name";

/// The name to show: without quotes and space around it; an error where nothing
/// is left.
pub fn clean_name(name: Option<String>) -> (r: Result<String, DomainError>)
    ensures
        r is Ok == (name is Some && bare(name->Some_0@).len() > 0),
        r matches Ok(n) ==> n@ == bare(name->Some_0@),
        r matches Err(e) ==> e is Internal && e->Internal_0@ == EMPTY_NAME@,
{
    if let Some(n) = name {
        let cs = chars_of(n.as_str());
        let inner = trimmed(stripped_end(stripped_start(trimmed(&cs), '"'), '"'));
        if inner.len() > 0 {
            return Ok(string_of(inner));
        }
    }
    Err(DomainError::Internal(EMPTY_NAME.to_string()))
}

/// The name to show for the reply of the model.
pub fn name_from_reply(raw: &str) -> (r: Result<String, DomainError>)
    ensures
        ({
            let name = reply_name(json_reply(raw@), raw@);
            &&& r is Ok == (name is Some && bare(name->Some_0).len() > 0)
            &&& r matches Ok(n) ==> n@ == bare(name->Some_0)
            &&& r matches Err(e) ==> e is Internal && e->Internal_0@ == EMPTY_NAME@
        }),
{
    clean_name(parse_name(raw))
}

} // verus!

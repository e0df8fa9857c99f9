//! The course of one search: what is asked of the stores and models in turn,
//! and what is made of their answers.

use vstd::prelude::*;
use crate::domain::{CodeChunk, DomainError, SearchQuery, SearchResult};
use crate::fusion::{concat, views};
use crate::rrf::{rrf_fuse, rrf_results};

verus! {

/// The score below which a result is no use to the caller.
pub const MIN_RESULT_SCORE: i128 = 100_000_000_000_000_000;

/// Which of the optional stages a search has.
#[derive(Debug, Clone, Copy, PartialEq, Eq, Structural)]
pub struct SearchSetup {
    /// A cross-encoder reorders the results.
    pub reranking: bool,
    /// The query is expanded into variants.
    pub expansion: bool,
    /// Results are expanded over the call graph.
    pub graph: bool,
}

/// What is to be done next.
#[derive(Debug, Clone, Copy, PartialEq, Eq, Structural)]
pub enum SearchStep {
    /// Ask the store whether it holds embeddings.
    Probe,
    /// Expand the query, embed each variant and search for it.
    Variants,
    /// Search once, with the query's embedding.
    Semantic,
    /// Search once, by keywords alone.
    Keyword,
    /// Expand the results over the call graph.
    Graph,
    /// Rerank the results.
    Rerank,
    /// Nothing: the results are final.
    Done,
}

/// A search under way.
pub struct SearchRun {
    pub setup: SearchSetup,
    pub query: SearchQuery,
    /// How many results are asked of the store.
    pub fetch_limit: usize,
    /// Whether the keyword leg is asked for.
    pub text_search: bool,
    pub graph_fused: bool,
    pub results: Vec<SearchResult>,
    pub step: SearchStep,
}

/// The number of results that the headroom for reranking is reckoned from.
pub open spec fn base_of(limit: int) -> int {
    if limit <= 10 {
        20
    } else {
        limit
    }
}

/// The number of results that the headroom for reranking is reckoned from.
pub fn fetch_base(limit: usize) -> (r: usize)
    ensures
        r == base_of(limit as int),
{
    if limit <= 10 {
        20
    } else {
        limit
    }
}

/// Good enough to be shown.
pub open spec fn above_floor() -> spec_fn(SearchResult) -> bool {
    |r: SearchResult| r.score >= MIN_RESULT_SCORE
}

/// The results that are good enough to be shown.
pub fn drop_weak(v: Vec<SearchResult>) -> (r: Vec<SearchResult>)
    ensures
        r@ == v@.filter(above_floor()),
{
    let ghost s = v@;
    let mut r: Vec<SearchResult> = Vec::new();
    proof {
        reveal(Seq::filter);
        assert(s.take(0).filter(above_floor()) =~= Seq::<SearchResult>::empty());
    }
    for x in it: v
        invariant
            it.seq() == s,
            r@ == s.take(it.index() as int).filter(above_floor()),
    {
        proof {
            let done = s.take(it.index() as int);
            assert(s.take(it.index() as int + 1) =~= done.push(x));
            done.lemma_filter_push(x, above_floor());
        }
        if x.score >= MIN_RESULT_SCORE {
            r.push(x);
        }
    }
    assert(s.take(s.len() as int) =~= s);
    r
}

impl SearchRun {
    /// Low scores are dropped before reranking only where they are
    /// similarities: not after a keyword leg or a fusion.
    pub open spec fn prunes(self) -> bool {
        !self.text_search && !self.setup.expansion && !self.graph_fused
    }

    /// The state once the results stand, before any reranking.
    pub open spec fn settled(self) -> SearchRun {
        SearchRun {
            step: if self.setup.reranking {
                SearchStep::Rerank
            } else {
                SearchStep::Done
            },
            ..self
        }
    }

    /// The results that the state goes to reranking with.
    pub open spec fn settled_results(self, results: Seq<SearchResult>) -> Seq<SearchResult> {
        if self.setup.reranking && self.prunes() {
            results.filter(above_floor())
        } else {
            results
        }
    }

    /// Everything but the results is as in `other`.
    pub open spec fn same_but_results(self, other: SearchRun) -> bool {
        self == (SearchRun { results: self.results, ..other })
    }

    /// Begins a search. `headroom` is how many results beyond the base are
    /// fetched where they will be reranked.
    pub fn start(setup: SearchSetup, query: SearchQuery, headroom: usize) -> (r: SearchRun)
        requires
            setup.reranking ==> base_of(query.limit as int) + headroom <= usize::MAX,
        ensures
            r.setup == setup,
            r.query == query,
            r.fetch_limit == if setup.reranking {
                base_of(query.limit as int) + headroom
            } else {
                query.limit as int
            },
            r.text_search == query.text_search,
            !r.graph_fused,
            r.results@ == Seq::<SearchResult>::empty(),
            r.step == SearchStep::Probe,
    {
        let fetch_limit: usize = if setup.reranking {
            fetch_base(query.limit) + headroom
        } else {
            query.limit
        };
        let text_search = query.text_search;
        SearchRun {
            setup,
            query,
            fetch_limit,
            text_search,
            graph_fused: false,
            results: Vec::new(),
            step: SearchStep::Probe,
        }
    }

    /// The leg that comes after the store was asked whether it holds embeddings.
    pub open spec fn leg_after_probe(self, available: bool) -> SearchStep {
        match (available, self.setup.expansion) {
            (true, true) => SearchStep::Variants,
            (true, false) => SearchStep::Semantic,
            (false, _) => SearchStep::Keyword,
        }
    }

    /// Takes the store's answer on whether it holds embeddings. A failed
    /// probe counts as yes. Without embeddings the keyword leg carries the
    /// search, and no variants are made.
    pub fn probed(&mut self, outcome: Result<bool, DomainError>)
        requires
            old(self).step == SearchStep::Probe,
        ensures
            ({
                let available = match outcome {
                    Ok(b) => b,
                    Err(_) => true,
                };
                *final(self) == SearchRun {
                    text_search: old(self).text_search || !available,
                    step: if available && old(self).setup.expansion {
                        SearchStep::Variants
                    } else if available {
                        SearchStep::Semantic
                    } else {
                        SearchStep::Keyword
                    },
                    ..*old(self)
                }
            }),
            final(self).step == old(self).leg_after_probe(
                outcome is Err || outcome == Ok::<bool, DomainError>(true),
            ),
    {
        let available = match outcome {
            Ok(b) => b,
            Err(_) => true,
        };
        if !available {
            self.text_search = true;
        }
        self.step = if available && self.setup.expansion {
            SearchStep::Variants
        } else if available {
            SearchStep::Semantic
        } else {
            SearchStep::Keyword
        };
    }

    /// The query to hand to the store.
    pub fn store_query(&self) -> (r: SearchQuery)
        ensures
            r.query == self.query.query,
            r.limit == self.fetch_limit,
            r.text_search == self.text_search,
            forall|c: CodeChunk| #[trigger] r.admits(c) == self.query.admits(c),
    {
        self.query.adjusted(self.fetch_limit, self.text_search)
    }

    /// Goes on to reranking or to the end.
    fn settle(&mut self)
        ensures
            final(self).same_but_results(old(self).settled()),
            final(self).results@ == old(self).settled_results(old(self).results@),
    {
        if self.setup.reranking {
            if !self.text_search && !self.setup.expansion && !self.graph_fused {
                let mut results: Vec<SearchResult> = Vec::new();
                std::mem::swap(&mut results, &mut self.results);
                self.results = drop_weak(results);
            }
            self.step = SearchStep::Rerank;
        } else {
            self.step = SearchStep::Done;
        }
    }

    /// Takes the results of one search.
    pub fn found(&mut self, results: Vec<SearchResult>)
        requires
            old(self).step == SearchStep::Semantic || old(self).step == SearchStep::Keyword,
        ensures
            old(self).setup.graph ==> *final(self) == (SearchRun {
                results,
                step: SearchStep::Graph,
                ..*old(self)
            }),
            !old(self).setup.graph ==> final(self).same_but_results(old(self).settled())
                && final(self).results@ == old(self).settled_results(results@),
    {
        self.results = results;
        if self.setup.graph {
            self.step = SearchStep::Graph;
        } else {
            self.settle();
        }
    }

    /// Takes the results of the searches for the variants, and fuses them.
    pub fn variants_found(&mut self, lists: Vec<Vec<SearchResult>>)
        requires
            old(self).step == SearchStep::Variants,
            concat(views(lists@)).len() <= usize::MAX,
        ensures
            ({
                let fused = rrf_results(views(lists@), old(self).fetch_limit as int);
                &&& old(self).setup.graph ==> final(self).same_but_results(
                    SearchRun { step: SearchStep::Graph, ..*old(self) },
                ) && final(self).results@ == fused
                &&& !old(self).setup.graph ==> final(self).same_but_results(old(self).settled())
                    && final(self).results@ == old(self).settled_results(fused)
            }),
    {
        self.results = rrf_fuse(lists, self.fetch_limit);
        if self.setup.graph {
            self.step = SearchStep::Graph;
        } else {
            self.settle();
        }
    }

    /// Takes what expansion over the call graph found: fused into the results
    /// where there is any. A failed or empty expansion leaves them as they
    /// are.
    pub fn expanded(&mut self, outcome: Result<Vec<SearchResult>, DomainError>)
        requires
            old(self).step == SearchStep::Graph,
            outcome matches Ok(leg) ==> old(self).results@.len() + leg@.len() <= usize::MAX,
        ensures
            ({
                let before = *old(self);
                let fused = outcome is Ok && outcome->Ok_0@.len() > 0;
                let state = SearchRun { graph_fused: before.graph_fused || fused, ..before };
                &&& final(self).same_but_results(state.settled())
                &&& final(self).results@ == state.settled_results(
                    if fused {
                        rrf_results(
                            seq![before.results@, outcome->Ok_0@],
                            before.fetch_limit as int,
                        )
                    } else {
                        before.results@
                    },
                )
            }),
    {
        if let Ok(leg) = outcome {
            if leg.len() > 0 {
                let mut results: Vec<SearchResult> = Vec::new();
                std::mem::swap(&mut results, &mut self.results);
                let ghost pair = seq![results@, leg@];
                let mut lists: Vec<Vec<SearchResult>> = Vec::new();
                lists.push(results);
                lists.push(leg);
                proof {
                    assert(views(lists@) =~= pair);
                    let one = pair.drop_last();
                    assert(one =~= seq![results@]);
                    assert(one.drop_last() =~= Seq::<Seq<SearchResult>>::empty());
                    assert(concat(one.drop_last()) =~= Seq::<SearchResult>::empty());
                    assert(concat(one) =~= results@);
                }
                self.results = rrf_fuse(lists, self.fetch_limit);
                self.graph_fused = true;
            }
        }
        self.settle();
    }

    /// Hands out the results for reranking.
    pub fn candidates(&mut self) -> (r: Vec<SearchResult>)
        requires
            old(self).step == SearchStep::Rerank,
        ensures
            r@ == old(self).results@,
            final(self).same_but_results(*old(self)),
            final(self).results@ == Seq::<SearchResult>::empty(),
    {
        let mut r: Vec<SearchResult> = Vec::new();
        std::mem::swap(&mut r, &mut self.results);
        r
    }

    /// Takes the reranked results, of which the weak ones are dropped.
    pub fn reranked(&mut self, results: Vec<SearchResult>)
        requires
            old(self).step == SearchStep::Rerank,
        ensures
            final(self).same_but_results(SearchRun { step: SearchStep::Done, ..*old(self) }),
            final(self).results@ == results@.filter(above_floor()),
    {
        self.results = drop_weak(results);
        self.step = SearchStep::Done;
    }

    /// The final results.
    pub fn finish(self) -> (r: Vec<SearchResult>)
        requires
            self.step == SearchStep::Done,
        ensures
            r == self.results,
    {
        self.results
    }
}

} // verus!

//! A query on its way over the volumes.
//!
//! The volumes are asked one by one: each of them is held only while it is asked,
//! and let go before what it gave is sorted. So the volumes need not stand still
//! while a query runs. What it says of a volume holds of that volume as it was
//! when it was asked.

use super::answer::{gathered, merged_rows, reply_frames, reply_items, row_item, scope_in, Row};
use super::stream::{
    ask_of, finish_run, lemma_targets, lemma_volume_run, prefixes_right, query_volume, rows_of,
    scope_reached, start_stream, vols_wf, Collected, QueryStream, VolumeAnswer,
};
use super::volume::{
    remembers, route, scope_text, target_views, targets_of, volume_prefixes, ScopeCache, VolScope,
    VolumeState,
};
use crate::index::VolumeIndex;
use crate::proto::{ProtoError, QueryRequest, Response};
use crate::query::model::page;
use crate::query::parse::{parse_query, query_model, ParsedQuery, QueryError, QueryModel};
use crate::types::NIL;
use vstd::prelude::*;
use vstd::utf8::encode_utf8;

verus! {

/// A query on its way over the volumes.
pub struct QueryRun<'a> {
    q: &'a QueryRequest,
    parsed: ParsedQuery,
    prefixes: Vec<Vec<u8>>,
    list: Vec<(usize, VolScope)>,
    /// How many of the targets were asked.
    at: usize,
    collected: Collected,
    /// What the last of them gave, still to be taken in.
    waiting: Option<VolumeAnswer>,
}

/// The volume numbered `k` is as told.
pub open spec fn has_volume(
    vols: Seq<VolumeState>,
    k: int,
    complete: bool,
    metadata_pending: bool,
    index: VolumeIndex,
    cache: Option<ScopeCache>,
) -> bool {
    &&& 0 <= k < vols.len()
    &&& vols[k].phase.complete() == complete
    &&& vols[k].metadata_pending == metadata_pending
    &&& vols[k].index == index
    &&& vols[k].scope_cache == cache
}

impl<'a> QueryRun<'a> {
    /// What was asked for.
    pub closed spec fn request(&self) -> QueryRequest {
        *self.q
    }

    /// What it asks, parsed.
    pub closed spec fn parsed(&self) -> ParsedQuery {
        self.parsed
    }

    /// Which volumes it looks at, and which part of each.
    pub closed spec fn targets(&self) -> Seq<(int, Option<Seq<u8>>)> {
        target_views(self.list@)
    }

    /// How many of them were asked.
    pub closed spec fn at(&self) -> int {
        self.at as int
    }

    /// The query is one over these volumes.
    spec fn over(&self, vols: Seq<VolumeState>) -> bool {
        &&& vols_wf(vols)
        &&& vols.len() <= u32::MAX
        &&& prefixes_right(vols, self.prefixes@)
        &&& self.targets() == targets_of(vols, scope_text(self.q.scope))
        &&& self.at <= self.list@.len()
    }

    /// What was taken in is what the first `n` targets give.
    spec fn gave(&self, vols: Seq<VolumeState>, n: int) -> bool {
        let g = gathered(vols, self.targets(), self.parsed, ask_of(*self.q), n);
        &&& self.collected.mergeable(vols, self.prefixes@, self.q.sort)
        &&& self.collected.run_rows() == g.runs
        &&& self.collected.total == g.total
        &&& self.collected.total <= n * NIL
    }

    /// How complete things are was noted for the first `n` targets.
    spec fn noted(&self, vols: Seq<VolumeState>, n: int) -> bool {
        let g = gathered(vols, self.targets(), self.parsed, ask_of(*self.q), n);
        &&& self.collected.incomplete == g.incomplete
        &&& self.collected.pending == g.pending
    }

    /// The query is one over these volumes, and holds what those asked so far
    /// give.
    pub closed spec fn about(&self, vols: Seq<VolumeState>) -> bool {
        &&& self.over(vols)
        &&& self.waiting is None
        &&& self.gave(vols, self.at as int)
        &&& self.noted(vols, self.at as int)
    }

    /// The same, but that what the last of them gave may still have to be taken
    /// in.
    pub closed spec fn between(&self, vols: Seq<VolumeState>) -> bool {
        &&& self.over(vols)
        &&& self.at > 0
        &&& self.noted(vols, self.at as int)
        &&& match self.waiting {
            None => self.gave(vols, self.at as int),
            Some(answer) => {
                let t = self.targets()[self.at - 1];
                let scope = scope_in(vols, t, self.q.match_case);
                &&& self.gave(vols, self.at - 1)
                &&& scope is Some
                &&& answer.answers(t.0, vols[t.0].index@, self.parsed, scope->0, ask_of(*self.q))
            },
        }
    }

    /// Starts a query over the volumes with these prefixes.
    pub fn begin(prefixes: Vec<Vec<u8>>, q: &'a QueryRequest) -> (res: Result<
        QueryRun<'a>,
        Response,
    >)
        ensures
            match res {
                Ok(run) => {
                    &&& run.request() == *q
                    &&& query_model(encode_utf8(q.query@)) == Ok::<QueryModel, QueryError>(
                        run.parsed().model(),
                    )
                    &&& run.at() == 0
                    &&& forall|vols: Seq<VolumeState>|
                        vols_wf(vols) && vols.len() <= u32::MAX && prefixes_right(vols, prefixes@)
                            ==> #[trigger] run.about(vols) && run.targets() == targets_of(
                            vols,
                            scope_text(q.scope),
                        )
                },
                Err(r) => query_model(encode_utf8(q.query@)) is Err && r is Error && r->code
                    == ProtoError::BadQuery && r->message@ == query_model(
                    encode_utf8(q.query@),
                )->Err_0.text(),
            },
    {
        let parsed = match parse_query(q.query.as_str()) {
            Ok(parsed) => parsed,
            Err(e) => {
                return Err(Response::Error { code: ProtoError::BadQuery, message: e.message() });
            },
        };
        let list = route(&prefixes, &q.scope);
        let run = QueryRun {
            q,
            parsed,
            prefixes,
            list,
            at: 0,
            collected: Collected::new(),
            waiting: None,
        };
        proof {
            assert(run.collected.run_rows() =~= Seq::<Seq<Row>>::empty());
            assert forall|vols: Seq<VolumeState>|
                vols_wf(vols) && vols.len() <= u32::MAX && prefixes_right(
                    vols,
                    prefixes@,
                ) implies #[trigger] run.about(vols) && run.targets() == targets_of(
                vols,
                scope_text(q.scope),
            ) by {
                assert(crate::pieces::texts(prefixes@) =~= volume_prefixes(vols));
            }
        }
        Ok(run)
    }

    /// The volume to ask next; none once all were asked.
    pub fn next_volume(&self) -> (vol: Option<usize>)
        requires
            exists|vols: Seq<VolumeState>| self.about(vols),
        ensures
            match vol {
                Some(k) => self.at() < self.targets().len() && k == self.targets()[self.at()].0,
                None => self.at() == self.targets().len(),
            },
    {
        assert(self.targets().len() == self.list@.len());
        if self.at < self.list.len() {
            assert(self.targets()[self.at as int].0 == self.list@[self.at as int].0);
            Some(self.list[self.at].0)
        } else {
            None
        }
    }

    /// Asks the next volume. The scope is remembered in `cache`.
    pub fn ask(
        &mut self,
        complete: bool,
        metadata_pending: bool,
        index: &VolumeIndex,
        cache: &mut Option<ScopeCache>,
    )
        requires
            old(self).at() < old(self).targets().len(),
            exists|vols: Seq<VolumeState>| #[trigger]
                old(self).about(vols) && has_volume(
                    vols,
                    old(self).targets()[old(self).at()].0,
                    complete,
                    metadata_pending,
                    *index,
                    *old(cache),
                ),
        ensures
            final(self).request() == old(self).request(),
            final(self).parsed() == old(self).parsed(),
            final(self).targets() == old(self).targets(),
            final(self).at() == old(self).at() + 1,
            remembers(
                index@,
                *old(cache),
                *final(cache),
                old(self).targets()[old(self).at()].1,
                old(self).request().match_case,
            ),
            forall|vols: Seq<VolumeState>|
                old(self).about(vols) && has_volume(
                    vols,
                    old(self).targets()[old(self).at()].0,
                    complete,
                    metadata_pending,
                    *index,
                    *old(cache),
                ) ==> #[trigger] final(self).between(vols),
    {
        let ghost before = *self;
        let ghost n = self.at as int;
        assert(self.targets().len() == self.list@.len());
        let k: usize = self.list[self.at].0;
        assert(self.targets()[n] == (k as int, self.list@[n].1.rel()));
        assert(index.wf()) by {
            let vols = choose|vols: Seq<VolumeState>| #[trigger]
                self.about(vols) && has_volume(
                    vols,
                    self.targets()[n].0,
                    complete,
                    metadata_pending,
                    *index,
                    *cache,
                );
            assert(vols[k as int].index.wf());
        }
        self.collected.note(complete, metadata_pending);
        let ghost asked_with = *cache;
        self.waiting = query_volume(k, index, cache, &self.parsed, self.q, &self.list[self.at].1);
        self.at = self.at + 1;
        proof {
            assert forall|vols: Seq<VolumeState>|
                before.about(vols) && has_volume(
                    vols,
                    before.targets()[n].0,
                    complete,
                    metadata_pending,
                    *index,
                    asked_with,
                ) implies #[trigger] self.between(vols) by {
                assert(scope_in(vols, self.targets()[n], self.q.match_case) == scope_reached(
                    vols[k as int].index@,
                    vols[k as int].scope_cache,
                    self.targets()[n].1,
                    self.q.match_case,
                ));
                assert(self.collected.run_rows() == before.collected.run_rows());
                assert(n * NIL <= (n + 1) * NIL) by (nonlinear_arith)
                    requires
                        n >= 0,
                ;
            }
        }
    }

    /// Takes in what the volume gave. That sorts it where it was not sorted, and
    /// needs the volume no more.
    #[verifier::rlimit(40)]
    pub fn settle(&mut self)
        requires
            exists|vols: Seq<VolumeState>| old(self).between(vols),
        ensures
            final(self).request() == old(self).request(),
            final(self).parsed() == old(self).parsed(),
            final(self).targets() == old(self).targets(),
            final(self).at() == old(self).at(),
            forall|vols: Seq<VolumeState>|
                old(self).between(vols) ==> #[trigger] final(self).about(vols),
    {
        let ghost before = *self;
        let ghost n = self.at - 1;
        if let Some(answer) = self.waiting.take() {
            let ghost a = answer;
            let total = answer.total;
            proof {
                let vols = choose|vols: Seq<VolumeState>| before.between(vols);
                let t = self.targets()[n];
                lemma_targets(vols, scope_text(self.q.scope));
                assert(0 <= t.0 < vols.len());
                let scope = scope_in(vols, t, self.q.match_case)->0;
                let list = a.entries(vols[t.0].index@, self.parsed, scope, ask_of(*self.q));
                assert forall|j: int| 0 <= j < a.hits@.len() implies (#[trigger] a.hits@[j]).vol
                    < self.prefixes@.len() by {
                    assert(a.hits@[j].hit.idx == list[j]);
                }
                assert(n * NIL + NIL <= u64::MAX) by (nonlinear_arith)
                    requires
                        0 <= n < u32::MAX,
                ;
            }
            let run = finish_run(answer, &self.prefixes, self.q.sort);
            let ghost had = self.collected;
            self.collected.add_run(run, total);
            proof {
                assert forall|vols: Seq<VolumeState>| before.between(vols) implies
                    #[trigger] self.about(vols) by {
                    let t = self.targets()[n];
                    lemma_targets(vols, scope_text(self.q.scope));
                    assert(0 <= t.0 < vols.len());
                    let scope = scope_in(vols, t, self.q.match_case)->0;
                    let list = a.entries(vols[t.0].index@, self.parsed, scope, ask_of(*self.q));
                    lemma_volume_run(
                        vols,
                        self.prefixes@,
                        t.0,
                        self.parsed,
                        scope,
                        ask_of(*self.q),
                        a.hits@,
                        list,
                        a.sorted,
                        run@,
                    );
                    assert(rows_of(run@).len() == run@.len());
                    if run@.len() > 0 {
                        assert(self.collected.run_rows() =~= had.run_rows().push(rows_of(run@)));
                    } else {
                        assert(self.collected.run_rows() =~= had.run_rows());
                    }
                    assert(n * NIL + NIL == (n + 1) * NIL) by (nonlinear_arith);
                }
            }
        }
    }

    /// Ends the query, once all volumes were asked: its reply is ready to be
    /// sent.
    pub fn finish(self) -> (stream: QueryStream)
        requires
            self.at() == self.targets().len(),
            exists|vols: Seq<VolumeState>| self.about(vols),
        ensures
            stream.wf(),
            forall|vols: Seq<VolumeState>| #[trigger]
                self.about(vols) ==> stream.frames_left() == reply_frames(
                    vols,
                    targets_of(vols, scope_text(self.request().scope)),
                    self.parsed(),
                    ask_of(self.request()),
                ),
    {
        let ghost run = self;
        let q = self.q;
        proof {
            let vols = choose|vols: Seq<VolumeState>| self.about(vols);
            assert(self.collected.mergeable(vols, self.prefixes@, q.sort));
        }
        let stream = start_stream(self.collected, self.prefixes, q);
        proof {
            assert forall|vols: Seq<VolumeState>| #[trigger] run.about(vols) implies
                stream.frames_left() == reply_frames(
                vols,
                targets_of(vols, scope_text(q.scope)),
                run.parsed,
                ask_of(*q),
            ) by {
                let views = run.targets();
                let g = gathered(vols, views, run.parsed, ask_of(*q), views.len() as int);
                assert(run.collected.mergeable(vols, run.prefixes@, q.sort));
                assert(g.total as u64 == run.collected.total);
                assert(page(
                    merged_rows(vols, run.collected.run_rows(), q.sort),
                    q.offset,
                    q.limit,
                ).map_values(|r: Row| row_item(vols, ask_of(*q), r)) =~= reply_items(
                    vols,
                    g,
                    ask_of(*q),
                ));
            }
        }
        stream
    }
}

} // verus!

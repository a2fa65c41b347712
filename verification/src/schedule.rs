//! The scheduler: a single-owner state machine over the crawl record, the
//! pending queue, the in-flight task counts and the pacing cursor. The
//! embedding program performs the HTTP transfers, sleeps and file writes,
//! and drives this state machine with plain values: each operation here is a
//! decision step of the main cycle.
use crate::config::SchedulerConfig;
use crate::file::FileContent;
use crate::middle::Conclusion;
use crate::ring::Ring;
use crate::state::SchedulerState;
use crate::text::dec_digits;
use crate::text::usize_to_string;
use crate::urls::Record;
use vstd::multiset::Multiset;
use vstd::prelude::*;

verus! {

broadcast use vstd::seq_lib::group_to_multiset_ensures, vstd::multiset::group_multiset_axioms;

/// Snapshot cadence: every this many record changes, a snapshot write is
/// started.
pub const WRITE_FREQUENCY: u8 = 8;

/// What the embedding program must do with a drained conclusion: write
/// these bytes at this path — failing the id on a write error — or nothing.
#[derive(Debug)]
pub enum Persist {
    Nothing,
    File { url_id: usize, path: String, bytes: Vec<u8> },
}

/// The dispatch-relevant state that link processing folds over: the
/// interned URLs, the pending queue, and the ring's deferred queue.
pub struct DispatchView {
    pub urls: Seq<Seq<char>>,
    pub pending: Seq<usize>,
    pub ring_next: Seq<usize>,
}

/// Where one discovered href goes: a blacklisted URL is interned only, so
/// it is never revisited; a URL matching the filter is interned and, when
/// new, queued for dispatch; any other URL is interned and, when new,
/// deferred to the ring if one is enabled.
pub open spec fn href_step(cfg: SchedulerConfig, v: DispatchView, u: Seq<char>) -> DispatchView {
    if cfg.blacklist_matches(u) {
        if v.urls.contains(u) {
            v
        } else {
            DispatchView { urls: v.urls.push(u), ..v }
        }
    } else if cfg.filter_matches(u) {
        if v.urls.contains(u) {
            v
        } else {
            DispatchView {
                urls: v.urls.push(u),
                pending: v.pending.push(v.urls.len() as usize),
                ..v
            }
        }
    } else {
        if v.urls.contains(u) {
            v
        } else if cfg.ring is Some {
            DispatchView {
                urls: v.urls.push(u),
                ring_next: v.ring_next.push(v.urls.len() as usize),
                ..v
            }
        } else {
            DispatchView { urls: v.urls.push(u), ..v }
        }
    }
}

/// Where one image source goes: images are not filtered — interned and,
/// when new, queued for dispatch.
pub open spec fn img_step(v: DispatchView, u: Seq<char>) -> DispatchView {
    if v.urls.contains(u) {
        v
    } else {
        DispatchView { urls: v.urls.push(u), pending: v.pending.push(v.urls.len() as usize), ..v }
    }
}

/// The dispatch state after handling every href in order.
pub open spec fn fold_hrefs(cfg: SchedulerConfig, v: DispatchView, hrefs: Seq<Seq<char>>) -> DispatchView
    decreases hrefs.len(),
{
    if hrefs.len() == 0 {
        v
    } else {
        fold_hrefs(cfg, href_step(cfg, v, hrefs[0]), hrefs.drop_first())
    }
}

/// The dispatch state after handling every image source in order.
pub open spec fn fold_imgs(v: DispatchView, imgs: Seq<Seq<char>>) -> DispatchView
    decreases imgs.len(),
{
    if imgs.len() == 0 {
        v
    } else {
        fold_imgs(img_step(v, imgs[0]), imgs.drop_first())
    }
}

/// The dispatch state after committing one HTML conclusion: all hrefs are
/// handled, then — unless non-HTML resources are disregarded, which also
/// switches image scheduling off — all image sources.
pub open spec fn html_dispatch(
    cfg: SchedulerConfig,
    v: DispatchView,
    hrefs: Seq<Seq<char>>,
    imgs: Seq<Seq<char>>,
) -> DispatchView {
    let after_hrefs = fold_hrefs(cfg, v, hrefs);
    if cfg.disregard_other {
        after_hrefs
    } else {
        fold_imgs(after_hrefs, imgs)
    }
}

proof fn lemma_fold_hrefs_push(cfg: SchedulerConfig, v: DispatchView, s: Seq<Seq<char>>, x: Seq<char>)
    ensures
        fold_hrefs(cfg, v, s.push(x)) == href_step(cfg, fold_hrefs(cfg, v, s), x),
    decreases s.len(),
{
    let t = s.push(x);
    if s.len() == 0 {
        assert(t[0] == x);
        assert(t.drop_first() =~= s);
        assert(fold_hrefs(cfg, v, t) == fold_hrefs(cfg, href_step(cfg, v, x), s));
        assert(fold_hrefs(cfg, href_step(cfg, v, x), s) == href_step(cfg, v, x));
        assert(fold_hrefs(cfg, v, s) == v);
    } else {
        assert(t[0] == s[0]);
        assert(t.drop_first() =~= s.drop_first().push(x));
        assert(fold_hrefs(cfg, v, t) == fold_hrefs(
            cfg,
            href_step(cfg, v, s[0]),
            s.drop_first().push(x),
        ));
        lemma_fold_hrefs_push(cfg, href_step(cfg, v, s[0]), s.drop_first(), x);
        assert(fold_hrefs(cfg, v, s) == fold_hrefs(cfg, href_step(cfg, v, s[0]), s.drop_first()));
    }
}

proof fn lemma_fold_imgs_push(v: DispatchView, s: Seq<Seq<char>>, x: Seq<char>)
    ensures
        fold_imgs(v, s.push(x)) == img_step(fold_imgs(v, s), x),
    decreases s.len(),
{
    let t = s.push(x);
    if s.len() == 0 {
        assert(t[0] == x);
        assert(t.drop_first() =~= s);
        assert(fold_imgs(v, t) == fold_imgs(img_step(v, x), s));
        assert(fold_imgs(img_step(v, x), s) == img_step(v, x));
        assert(fold_imgs(v, s) == v);
    } else {
        assert(t[0] == s[0]);
        assert(t.drop_first() =~= s.drop_first().push(x));
        assert(fold_imgs(v, t) == fold_imgs(img_step(v, s[0]), s.drop_first().push(x)));
        lemma_fold_imgs_push(img_step(v, s[0]), s.drop_first(), x);
        assert(fold_imgs(v, s) == fold_imgs(img_step(v, s[0]), s.drop_first()));
    }
}

/// Milliseconds elapsed from `time` to `now`, zero when `now` lies before
/// `time`.
pub open spec fn elapsed_ms(time: u64, now: u64) -> int {
    if now >= time {
        now - time
    } else {
        0
    }
}

/// Dispatches of `id` so far plus its occurrences in the pending queue and
/// the ring's deferred queue.
pub open spec fn occ_of(
    dispatches: Multiset<usize>,
    pending: Seq<usize>,
    ring_next: Seq<usize>,
    id: usize,
) -> int {
    dispatches.count(id) + pending.to_multiset().count(id) + ring_next.to_multiset().count(
        id,
    ) as int
}

/// Every id's dispatches and queued occurrences stay within its retry
/// budget: one attempt for being discovered, one more once it has failed.
pub open spec fn inv_budget(
    dispatches: Multiset<usize>,
    pending: Seq<usize>,
    ring_next: Seq<usize>,
    fails: Set<usize>,
) -> bool {
    forall|id: usize|
        #[trigger] occ_of(dispatches, pending, ring_next, id) <= 1 + if fails.contains(id) {
            1int
        } else {
            0int
        }
}

/// Ids at or past the intern horizon have never been dispatched or queued.
pub open spec fn inv_horizon(
    dispatches: Multiset<usize>,
    pending: Seq<usize>,
    ring_next: Seq<usize>,
    n_urls: int,
) -> bool {
    forall|id: usize|
        id as int >= n_urls ==> #[trigger] occ_of(dispatches, pending, ring_next, id) == 0
}

/// Every id in the set is interned.
pub open spec fn inv_ids_below(ids: Set<usize>, n_urls: int) -> bool {
    forall|id: usize| #[trigger] ids.contains(id) ==> (id as int) < n_urls
}

/// Every redirect entry joins two distinct interned ids, and its target has
/// been scraped.
pub open spec fn inv_redirect_entries(
    redirects: Seq<(usize, usize)>,
    n_urls: int,
    scrapes: Set<usize>,
) -> bool {
    forall|k: int|
        0 <= k < redirects.len() ==> ((#[trigger] redirects[k]).0 as int) < n_urls && (
        redirects[k].1 as int) < n_urls && redirects[k].0 != redirects[k].1 && scrapes.contains(
            redirects[k].1,
        )
}

/// Every queued conclusion is about a concluded id.
pub open spec fn inv_conclusions(conclusions: Seq<Conclusion>, concluded: Set<usize>) -> bool {
    forall|k: int| 0 <= k < conclusions.len() ==> concluded.contains((#[trigger] conclusions[k]).url_id)
}

/// Every id of the smaller set lies in the larger one.
pub open spec fn inv_ids_subset(sub: Set<usize>, sup: Set<usize>) -> bool {
    forall|id: usize| #[trigger] sub.contains(id) ==> sup.contains(id)
}

/// The crawl engine's state: configuration, record, queues and pacing, plus
/// the ghost history that the run-wide guarantees are stated over.
pub struct Scheduler {
    pub cfg: SchedulerConfig,
    pub rec: Record,
    pub state: SchedulerState,
    /// Record changes since the last snapshot trigger, always below
    /// `WRITE_FREQUENCY`.
    pub changes: u8,
    /// The record cardinalities last seen by change detection.
    pub last_lens: (usize, usize, usize, usize),
    /// How many times each url id has been dispatched as a request task.
    pub dispatches: Ghost<Multiset<usize>>,
    /// The ids whose process task delivered a conclusion that was accepted.
    pub concluded: Ghost<Set<usize>>,
    /// The ids whose resources have been handed over for writing.
    pub written: Ghost<Set<usize>>,
}

impl Scheduler {
    /// The ring's deferred queue, empty when the ring is disabled.
    pub open spec fn ring_next(&self) -> Seq<usize> {
        match self.cfg.ring {
            Some(r) => r.next@,
            None => Seq::empty(),
        }
    }

    /// Dispatches of `id` so far plus its queued occurrences.
    pub open spec fn occ(&self, id: usize) -> int {
        occ_of(self.dispatches@, self.state.pending@, self.ring_next(), id)
    }

    /// The dispatch-relevant part of the state, the view that link
    /// processing is specified over.
    pub open spec fn dispatch_view(&self) -> DispatchView {
        DispatchView {
            urls: self.rec.urls_seq(),
            pending: self.state.pending@,
            ring_next: self.ring_next(),
        }
    }

    /// The engine's invariant: the record is well formed, the ring within
    /// its wave budget, every id within its retry budget, every tracked id
    /// interned, every redirect entry sound, every queued conclusion about a
    /// concluded id, every concluded id scraped, and nothing written that
    /// was not concluded.
    pub open spec fn wf(&self) -> bool {
        &&& self.rec.wf()
        &&& (match self.cfg.ring {
            Some(r) => r.wf(),
            None => true,
        })
        &&& self.changes < WRITE_FREQUENCY
        &&& inv_budget(
            self.dispatches@,
            self.state.pending@,
            self.ring_next(),
            self.rec.fails_set(),
        )
        &&& inv_horizon(
            self.dispatches@,
            self.state.pending@,
            self.ring_next(),
            self.rec.urls@.len() as int,
        )
        &&& inv_ids_below(self.rec.fails_set(), self.rec.urls@.len() as int)
        &&& inv_ids_below(self.rec.scrapes_set(), self.rec.urls@.len() as int)
        &&& inv_redirect_entries(
            self.rec.redirects@,
            self.rec.urls@.len() as int,
            self.rec.scrapes_set(),
        )
        &&& inv_conclusions(self.state.conclusions@, self.concluded@)
        &&& inv_ids_subset(self.concluded@, self.rec.scrapes_set())
        &&& inv_ids_subset(self.written@, self.concluded@)
    }
}

proof fn lemma_ids_below_mono(ids: Set<usize>, n0: int, n1: int)
    requires
        inv_ids_below(ids, n0),
        n0 <= n1,
    ensures
        inv_ids_below(ids, n1),
{
    assert forall|id: usize| #[trigger] ids.contains(id) implies (id as int) < n1 by {
        assert((id as int) < n0);
    }
}

proof fn lemma_redirects_mono(
    redirects: Seq<(usize, usize)>,
    n0: int,
    n1: int,
    scrapes: Set<usize>,
)
    requires
        inv_redirect_entries(redirects, n0, scrapes),
        n0 <= n1,
    ensures
        inv_redirect_entries(redirects, n1, scrapes),
{
    assert forall|k: int|
        0 <= k < redirects.len() implies ((#[trigger] redirects[k]).0 as int) < n1 && (
        redirects[k].1 as int) < n1 && redirects[k].0 != redirects[k].1 && scrapes.contains(
        redirects[k].1,
    ) by {
        assert(((redirects[k]).0 as int) < n0);
    }
}

proof fn lemma_horizon_grow(
    dispatches: Multiset<usize>,
    pending: Seq<usize>,
    ring_next: Seq<usize>,
    n0: int,
    n1: int,
)
    requires
        inv_horizon(dispatches, pending, ring_next, n0),
        n0 <= n1,
    ensures
        inv_horizon(dispatches, pending, ring_next, n1),
{
    assert forall|id: usize|
        id as int >= n1 implies #[trigger] occ_of(dispatches, pending, ring_next, id) == 0 by {
        assert(id as int >= n0);
    }
}

proof fn lemma_count_zero_of_empty(s: Seq<usize>, id: usize)
    requires
        s.len() == 0,
    ensures
        s.to_multiset().count(id) == 0,
{
    if s.to_multiset().count(id) > 0 {
        assert(s.contains(id));
        let w = choose|w: int| 0 <= w < s.len() && s[w] == id;
        assert(false);
    }
}

impl Scheduler {
    pub fn new(cfg: SchedulerConfig, now: u64) -> (r: Scheduler)
        requires
            match cfg.ring {
                Some(ring) => ring.wf() && ring.next@.len() == 0,
                None => true,
            },
        ensures
            r.wf(),
            r.cfg == cfg,
            r.rec.urls@.len() == 0,
            r.rec.scrapes@.len() == 0,
            r.rec.fails@.len() == 0,
            r.rec.redirects@.len() == 0,
            r.state.time == now,
            r.state.pending@ == Seq::<usize>::empty(),
            r.state.requests == 0,
            r.state.processes == 0,
            r.state.conclusions@.len() == 0,
            !r.state.writer,
            r.dispatches@ == Multiset::<usize>::empty(),
            r.concluded@ == Set::<usize>::empty(),
            r.written@ == Set::<usize>::empty(),
            r.changes == 0,
    {
        let r = Scheduler {
            cfg,
            rec: Record::new(),
            state: SchedulerState::new(now),
            changes: 0,
            last_lens: (0, 0, 0, 0),
            dispatches: Ghost(Multiset::empty()),
            concluded: Ghost(Set::empty()),
            written: Ghost(Set::empty()),
        };
        proof {
            assert forall|id: usize| #[trigger] r.occ(id) == 0 by {
                lemma_count_zero_of_empty(r.state.pending@, id);
                lemma_count_zero_of_empty(r.ring_next(), id);
            }
        }
        r
    }

    /// The pacing gate: dispatching must still wait.
    pub fn delaying_requests(&self, now: u64) -> (r: bool)
        ensures
            r == (elapsed_ms(self.state.time, now) < self.cfg.delay),
    {
        let elapsed: u64 = if now >= self.state.time {
            now - self.state.time
        } else {
            0
        };
        elapsed < self.cfg.delay
    }

    /// Interns the URL; when it is new, queues its id for dispatch, and
    /// otherwise drops it silently.
    pub fn add_pending(&mut self, url: String)
        requires
            old(self).wf(),
        ensures
            final(self).wf(),
            final(self).cfg == old(self).cfg,
            final(self).rec.scrapes@ == old(self).rec.scrapes@,
            final(self).rec.fails@ == old(self).rec.fails@,
            final(self).rec.redirects@ == old(self).rec.redirects@,
            final(self).state.time == old(self).state.time,
            final(self).state.requests == old(self).state.requests,
            final(self).state.processes == old(self).state.processes,
            final(self).state.conclusions@ == old(self).state.conclusions@,
            final(self).dispatches@ == old(self).dispatches@,
            final(self).concluded@ == old(self).concluded@,
            final(self).written@ == old(self).written@,
            final(self).changes == old(self).changes,
            if old(self).rec.known(url@) {
                final(self).rec.urls@ == old(self).rec.urls@ && final(self).state.pending@ == old(self).state.pending@
            } else {
                final(self).rec.urls_seq() == old(self).rec.urls_seq().push(url@) && final(self).state.pending@ == old(self).state.pending@.push(
                    old(self).rec.urls@.len() as usize,
                )
            },
    {
        let ghost n0 = self.rec.urls@.len() as int;
        match self.rec.check_add_url(url) {
            Ok(index) => {
                self.state.pending.push(index);
                proof {
                    let d = self.dispatches@;
                    let p0 = old(self).state.pending@;
                    let p1 = self.state.pending@;
                    let r = self.ring_next();
                    let f = self.rec.fails_set();
                    assert(p1.to_multiset() =~= p0.to_multiset().insert(index));
                    assert forall|id: usize|
                        #[trigger] occ_of(d, p1, r, id) <= 1 + (if f.contains(id) {
                            1int
                        } else {
                            0int
                        }) by {
                        if id == index {
                            assert(occ_of(d, p0, r, id) == 0);
                            if f.contains(id) {
                                assert((id as int) < n0);
                            }
                            assert(occ_of(d, p1, r, id) == 1);
                        } else {
                            assert(p1.to_multiset().count(id) == p0.to_multiset().count(id));
                            assert(occ_of(d, p0, r, id) <= 1 + (if f.contains(id) {
                                1int
                            } else {
                                0int
                            }));
                        }
                    }
                    assert forall|id: usize|
                        id as int >= self.rec.urls@.len() as int implies #[trigger] occ_of(
                        d,
                        p1,
                        r,
                        id,
                    ) == 0 by {
                        assert(occ_of(d, p0, r, id) == 0);
                        assert(p1.to_multiset().count(id) == p0.to_multiset().count(id));
                    }
                }
            },
            Err(_) => {},
        }
    }

    /// Interns the URL; when it is new and the ring is enabled, queues its
    /// id for the following wave. Without a ring the URL is interned, to
    /// prevent a revisit, but never scheduled.
    pub fn add_next_pending(&mut self, url: String)
        requires
            old(self).wf(),
        ensures
            final(self).wf(),
            final(self).cfg.delay == old(self).cfg.delay,
            final(self).cfg.filter == old(self).cfg.filter,
            final(self).cfg.blacklist == old(self).cfg.blacklist,
            final(self).cfg.disregard_html == old(self).cfg.disregard_html,
            final(self).cfg.disregard_other == old(self).cfg.disregard_other,
            final(self).cfg.html_dir == old(self).cfg.html_dir,
            final(self).cfg.other_dir == old(self).cfg.other_dir,
            final(self).cfg.log_dir == old(self).cfg.log_dir,
            (final(self).cfg.ring is Some) == (old(self).cfg.ring is Some),
            final(self).rec.scrapes@ == old(self).rec.scrapes@,
            final(self).rec.fails@ == old(self).rec.fails@,
            final(self).rec.redirects@ == old(self).rec.redirects@,
            final(self).state == old(self).state,
            final(self).dispatches@ == old(self).dispatches@,
            final(self).concluded@ == old(self).concluded@,
            final(self).written@ == old(self).written@,
            final(self).changes == old(self).changes,
            if old(self).rec.known(url@) {
                final(self).rec.urls@ == old(self).rec.urls@ && final(self).ring_next() == old(self).ring_next()
            } else {
                final(self).rec.urls_seq() == old(self).rec.urls_seq().push(url@) && final(self).ring_next() == (if old(self).cfg.ring is Some {
                    old(self).ring_next().push(old(self).rec.urls@.len() as usize)
                } else {
                    old(self).ring_next()
                })
            },
    {
        let ghost n0 = self.rec.urls@.len() as int;
        let mut ring_local: Option<Ring> = None;
        core::mem::swap(&mut ring_local, &mut self.cfg.ring);
        match ring_local {
            Some(mut ring) => {
                let mut added: Option<usize> = None;
                match self.rec.check_add_url(url) {
                    Ok(index) => {
                        ring.push_next(index);
                        added = Some(index);
                    },
                    Err(_) => {},
                }
                self.cfg.ring = Some(ring);
                proof {
                    let d = self.dispatches@;
                    let p = self.state.pending@;
                    let r0 = old(self).ring_next();
                    let r1 = self.ring_next();
                    let f = self.rec.fails_set();
                    match added {
                        Some(index) => {
                            assert(r1 =~= r0.push(index));
                            assert(r1.to_multiset() =~= r0.to_multiset().insert(index));
                            assert forall|id: usize|
                                #[trigger] occ_of(d, p, r1, id) <= 1 + (if f.contains(id) {
                                    1int
                                } else {
                                    0int
                                }) by {
                                if id == index {
                                    assert(occ_of(d, p, r0, id) == 0);
                                    if f.contains(id) {
                                        assert((id as int) < n0);
                                    }
                                } else {
                                    assert(r1.to_multiset().count(id) == r0.to_multiset().count(
                                        id,
                                    ));
                                    assert(occ_of(d, p, r0, id) <= 1 + (if f.contains(id) {
                                        1int
                                    } else {
                                        0int
                                    }));
                                }
                            }
                            assert forall|id: usize|
                                id as int >= self.rec.urls@.len() as int implies #[trigger] occ_of(
                                d,
                                p,
                                r1,
                                id,
                            ) == 0 by {
                                assert(occ_of(d, p, r0, id) == 0);
                                assert(r1.to_multiset().count(id) == r0.to_multiset().count(id));
                            }
                        },
                        None => {
                            assert(r1 =~= r0);
                        },
                    }
                }
            },
            None => {
                match self.rec.check_add_url(url) {
                    Ok(_) => {
                        proof {
                            lemma_horizon_grow(
                                self.dispatches@,
                                self.state.pending@,
                                self.ring_next(),
                                n0,
                                self.rec.urls@.len() as int,
                            );
                            lemma_ids_below_mono(
                                self.rec.fails_set(),
                                n0,
                                self.rec.urls@.len() as int,
                            );
                            lemma_ids_below_mono(
                                self.rec.scrapes_set(),
                                n0,
                                self.rec.urls@.len() as int,
                            );
                            lemma_redirects_mono(
                                self.rec.redirects@,
                                n0,
                                self.rec.urls@.len() as int,
                                self.rec.scrapes_set(),
                            );
                        }
                    },
                    Err(_) => {},
                }
            },
        }
    }

    /// The failure policy: an id that has not failed before is marked failed
    /// and rescheduled once; a repeat failure is a no-op. Thus every id is
    /// attempted at most twice.
    pub fn fail(&mut self, url_id: usize)
        requires
            old(self).wf(),
            url_id < old(self).rec.urls@.len(),
        ensures
            final(self).wf(),
            final(self).cfg == old(self).cfg,
            final(self).rec.urls@ == old(self).rec.urls@,
            final(self).rec.scrapes@ == old(self).rec.scrapes@,
            final(self).rec.redirects@ == old(self).rec.redirects@,
            final(self).state.time == old(self).state.time,
            final(self).state.requests == old(self).state.requests,
            final(self).state.processes == old(self).state.processes,
            final(self).state.conclusions@ == old(self).state.conclusions@,
            final(self).dispatches@ == old(self).dispatches@,
            final(self).concluded@ == old(self).concluded@,
            final(self).written@ == old(self).written@,
            final(self).changes == old(self).changes,
            if old(self).rec.fails_set().contains(url_id) {
                final(self).rec.fails@ == old(self).rec.fails@ && final(self).state.pending@ == old(self).state.pending@
            } else {
                final(self).rec.fails@ == old(self).rec.fails@.push(url_id) && final(self).state.pending@ == old(self).state.pending@.push(url_id)
            },
    {
        let added = self.rec.insert_fail(url_id);
        if added {
            self.state.pending.push(url_id);
        }
        proof {
            let d = self.dispatches@;
            let p0 = old(self).state.pending@;
            let p1 = self.state.pending@;
            let r = self.ring_next();
            let f0 = old(self).rec.fails_set();
            let f1 = self.rec.fails_set();
            if added {
                assert(p1.to_multiset() =~= p0.to_multiset().insert(url_id));
                assert forall|id: usize|
                    #[trigger] occ_of(d, p1, r, id) <= 1 + (if f1.contains(id) {
                        1int
                    } else {
                        0int
                    }) by {
                    if id == url_id {
                        assert(occ_of(d, p0, r, id) <= 1 + (if f0.contains(id) {
                            1int
                        } else {
                            0int
                        }));
                        assert(!f0.contains(id));
                        assert(f1.contains(id));
                        assert(occ_of(d, p1, r, id) == occ_of(d, p0, r, id) + 1);
                    } else {
                        assert(p1.to_multiset().count(id) == p0.to_multiset().count(id));
                        assert(f1.contains(id) == f0.contains(id));
                        assert(occ_of(d, p0, r, id) <= 1 + (if f0.contains(id) {
                            1int
                        } else {
                            0int
                        }));
                    }
                }
                assert forall|id: usize|
                    id as int >= self.rec.urls@.len() as int implies #[trigger] occ_of(
                    d,
                    p1,
                    r,
                    id,
                ) == 0 by {
                    assert(occ_of(d, p0, r, id) == 0);
                    assert(p1.to_multiset().count(id) == p0.to_multiset().count(id));
                }
                assert forall|id: usize| #[trigger] f1.contains(id) implies (id as int)
                    < self.rec.urls@.len() as int by {
                    if id != url_id {
                        assert(f0.contains(id));
                    }
                }
            }
        }
    }

    /// Pops the front pending id and hands back the dispatch to perform:
    /// the id and its URL. The caller starts the request task.
    pub fn spawn_one_request(&mut self) -> (r: Option<(usize, String)>)
        requires
            old(self).wf(),
            old(self).state.requests < usize::MAX,
        ensures
            final(self).wf(),
            final(self).cfg == old(self).cfg,
            final(self).rec.urls@ == old(self).rec.urls@,
            final(self).rec.scrapes@ == old(self).rec.scrapes@,
            final(self).rec.fails@ == old(self).rec.fails@,
            final(self).rec.redirects@ == old(self).rec.redirects@,
            final(self).state.time == old(self).state.time,
            final(self).state.processes == old(self).state.processes,
            final(self).state.conclusions@ == old(self).state.conclusions@,
            final(self).concluded@ == old(self).concluded@,
            final(self).written@ == old(self).written@,
            final(self).changes == old(self).changes,
            match r {
                None => {
                    &&& old(self).state.pending@.len() == 0
                    &&& final(self).state.pending@ == old(self).state.pending@
                    &&& final(self).state.requests == old(self).state.requests
                    &&& final(self).dispatches@ == old(self).dispatches@
                },
                Some((id, url)) => {
                    &&& old(self).state.pending@.len() > 0
                    &&& id == old(self).state.pending@[0]
                    &&& id < old(self).rec.urls@.len()
                    &&& url@ == old(self).rec.urls_seq()[id as int]
                    &&& final(self).state.pending@ == old(self).state.pending@.drop_first()
                    &&& final(self).state.requests == old(self).state.requests + 1
                    &&& final(self).dispatches@ == old(self).dispatches@.insert(id)
                },
            },
    {
        if self.state.pending.len() == 0 {
            return None;
        }
        let url_id = self.state.pending.remove(0);
        proof {
            assert(old(self).state.pending@[0] == url_id);
            assert(old(self).state.pending@.contains(url_id));
            if url_id >= self.rec.urls@.len() {
                assert(occ_of(
                    old(self).dispatches@,
                    old(self).state.pending@,
                    old(self).ring_next(),
                    url_id,
                ) == 0);
                assert(false);
            }
        }
        let url = self.rec.urls[url_id].clone();
        self.state.requests += 1;
        proof {
            self.dispatches@ = self.dispatches@.insert(url_id);
        }
        proof {
            let d0 = old(self).dispatches@;
            let d1 = self.dispatches@;
            let p0 = old(self).state.pending@;
            let p1 = self.state.pending@;
            let r = self.ring_next();
            let f = self.rec.fails_set();
            assert(p1 =~= p0.drop_first());
            assert(p1 =~= p0.remove(0));
            assert(p1.to_multiset() =~= p0.to_multiset().remove(url_id));
            assert forall|id: usize|
                #[trigger] occ_of(d1, p1, r, id) <= 1 + (if f.contains(id) {
                    1int
                } else {
                    0int
                }) by {
                assert(occ_of(d0, p0, r, id) <= 1 + (if f.contains(id) {
                    1int
                } else {
                    0int
                }));
                if id == url_id {
                    assert(d1.count(id) == d0.count(id) + 1);
                    assert(p0.to_multiset().count(id) > 0);
                    assert(p1.to_multiset().count(id) == p0.to_multiset().count(id) - 1);
                } else {
                    assert(d1.count(id) == d0.count(id));
                    assert(p1.to_multiset().count(id) == p0.to_multiset().count(id));
                }
            }
            assert forall|id: usize|
                id as int >= self.rec.urls@.len() as int implies #[trigger] occ_of(d1, p1, r, id)
                == 0 by {
                assert(occ_of(d0, p0, r, id) == 0);
                assert(id != url_id);
                assert(d1.count(id) == d0.count(id));
                assert(p1.to_multiset().count(id) == p0.to_multiset().count(id));
            }
        }
        Some((url_id, url))
    }

    /// The dispatch gate of the main cycle: when the pacing window has
    /// elapsed and something is pending, pops one id, advances the pacing
    /// cursor by exactly the delay, and hands back the dispatch.
    pub fn check_spawn_request(&mut self, now: u64) -> (r: Option<(usize, String)>)
        requires
            old(self).wf(),
            old(self).state.requests < usize::MAX,
        ensures
            final(self).wf(),
            final(self).cfg == old(self).cfg,
            final(self).rec.urls@ == old(self).rec.urls@,
            final(self).rec.scrapes@ == old(self).rec.scrapes@,
            final(self).rec.fails@ == old(self).rec.fails@,
            final(self).rec.redirects@ == old(self).rec.redirects@,
            final(self).state.processes == old(self).state.processes,
            final(self).state.conclusions@ == old(self).state.conclusions@,
            final(self).concluded@ == old(self).concluded@,
            final(self).written@ == old(self).written@,
            final(self).changes == old(self).changes,
            match r {
                None => {
                    &&& final(self).state.time == old(self).state.time
                    &&& final(self).state.pending@ == old(self).state.pending@
                    &&& final(self).state.requests == old(self).state.requests
                    &&& final(self).dispatches@ == old(self).dispatches@
                    &&& (elapsed_ms(old(self).state.time, now) >= old(self).cfg.delay ==> old(self).state.pending@.len() == 0)
                },
                Some((id, url)) => {
                    &&& elapsed_ms(old(self).state.time, now) >= old(self).cfg.delay
                    &&& final(self).state.time == old(self).state.time + old(self).cfg.delay
                    &&& old(self).state.pending@.len() > 0
                    &&& id == old(self).state.pending@[0]
                    &&& id < old(self).rec.urls@.len()
                    &&& url@ == old(self).rec.urls_seq()[id as int]
                    &&& final(self).state.pending@ == old(self).state.pending@.drop_first()
                    &&& final(self).state.requests == old(self).state.requests + 1
                    &&& final(self).dispatches@ == old(self).dispatches@.insert(id)
                },
            },
    {
        if self.delaying_requests(now) {
            return None;
        }
        match self.spawn_one_request() {
            Some(dispatch) => {
                proof {
                    if now >= self.state.time {
                        assert(self.state.time + self.cfg.delay <= now);
                    } else {
                        assert(elapsed_ms(self.state.time, now) == 0);
                        assert(self.cfg.delay == 0);
                    }
                }
                self.state.time = self.state.time + self.cfg.delay;
                Some(dispatch)
            },
            None => None,
        }
    }

    /// Commits a completed request: interns and collapses the response's
    /// final URL, and on success counts the resource as in process under the
    /// returned final id — the caller starts the process task for it. `None`
    /// means the redirect target was already scraped and the response is
    /// dropped.
    pub fn process_response(&mut self, url_id: usize, final_url: String) -> (r: Option<usize>)
        requires
            old(self).wf(),
            old(self).state.requests >= 1,
            old(self).state.processes < usize::MAX,
            url_id < old(self).rec.urls@.len(),
        ensures
            final(self).wf(),
            final(self).cfg == old(self).cfg,
            final(self).rec.fails@ == old(self).rec.fails@,
            final(self).state.time == old(self).state.time,
            final(self).state.pending@ == old(self).state.pending@,
            final(self).state.requests == old(self).state.requests - 1,
            final(self).state.conclusions@ == old(self).state.conclusions@,
            final(self).dispatches@ == old(self).dispatches@,
            final(self).concluded@ == old(self).concluded@,
            final(self).written@ == old(self).written@,
            final(self).changes == old(self).changes,
            match r {
                None => {
                    &&& final(self).state.processes == old(self).state.processes
                    &&& final(self).rec.urls@ == old(self).rec.urls@
                    &&& final(self).rec.scrapes@ == old(self).rec.scrapes@
                    &&& final(self).rec.redirects@ == old(self).rec.redirects@
                    &&& old(self).rec.known(final_url@)
                    &&& old(self).rec.id_of(final_url@) != url_id as int
                    &&& old(self).rec.scrapes_set().contains(
                        old(self).rec.id_of(final_url@) as usize,
                    )
                },
                Some(fid) => {
                    &&& final(self).state.processes == old(self).state.processes + 1
                    &&& fid < final(self).rec.urls@.len()
                    &&& fid as int == (if old(self).rec.known(final_url@) {
                        old(self).rec.id_of(final_url@)
                    } else {
                        old(self).rec.urls@.len() as int
                    })
                    &&& final(self).rec.urls_seq() == (if old(self).rec.known(final_url@) {
                        old(self).rec.urls_seq()
                    } else {
                        old(self).rec.urls_seq().push(final_url@)
                    })
                    &&& final(self).rec.scrapes_set() == old(self).rec.scrapes_set().insert(fid)
                    &&& final(self).rec.scrapes_set().contains(fid)
                    &&& (url_id != fid ==> final(self).rec.redirects_map() == old(self).rec.redirects_map().insert(url_id, fid))
                    &&& (url_id == fid ==> final(self).rec.redirects@ == old(self).rec.redirects@)
                },
            },
    {
        self.state.requests -= 1;
        let ghost fu = final_url@;
        proof {
            if old(self).rec.known(fu) {
                assert(old(self).rec.urls_seq().contains(fu));
                let w = old(self).rec.urls_seq().index_of(fu);
                assert(0 <= w < old(self).rec.urls_seq().len() && old(self).rec.urls_seq()[w]
                    == fu);
            }
        }
        match self.rec.check_final_url(url_id, final_url) {
            Some(fid) => {
                self.state.processes += 1;
                proof {
                    let n1 = self.rec.urls@.len() as int;
                    let s0 = old(self).rec.scrapes_set();
                    let s1 = self.rec.scrapes_set();
                    assert(old(self).rec.urls_seq().len() == old(self).rec.urls@.len());
                    assert(self.rec.urls_seq().len() == self.rec.urls@.len());
                    if old(self).rec.known(fu) {
                        assert(fid as int == old(self).rec.id_of(fu));
                        assert(self.rec.urls_seq() == old(self).rec.urls_seq());
                    } else {
                        assert(fid as int == old(self).rec.urls@.len() as int);
                        assert(self.rec.urls_seq() == old(self).rec.urls_seq().push(fu));
                    }
                    assert((fid as int) < n1);
                    assert(s1 == s0.insert(fid));
                    assert forall|id: usize| #[trigger] s1.contains(id) implies (id as int)
                        < n1 by {
                        if id != fid {
                            assert(s0.contains(id));
                        }
                    }
                    assert forall|id: usize|
                        id as int >= n1 implies #[trigger] occ_of(
                        self.dispatches@,
                        self.state.pending@,
                        self.ring_next(),
                        id,
                    ) == 0 by {
                        assert(id as int >= old(self).rec.urls@.len() as int);
                        assert(occ_of(
                            old(self).dispatches@,
                            old(self).state.pending@,
                            old(self).ring_next(),
                            id,
                        ) == 0);
                    }
                    assert forall|k: int|
                        0 <= k < self.rec.redirects@.len() implies ((
                        #[trigger] self.rec.redirects@[k]).0 as int) < n1 && (
                        self.rec.redirects@[k].1 as int) < n1 && self.rec.redirects@[k].0
                        != self.rec.redirects@[k].1 && s1.contains(self.rec.redirects@[k].1) by {
                        if old(self).rec.redirects@.contains(self.rec.redirects@[k]) {
                            let w = choose|w: int|
                                0 <= w < old(self).rec.redirects@.len() && old(
                                    self,
                                ).rec.redirects@[w] == self.rec.redirects@[k];
                            assert((old(self).rec.redirects@[w].0 as int) < old(self).rec.urls@.len() as int);
                            assert(s0.contains(old(self).rec.redirects@[w].1));
                        } else {
                            assert(self.rec.redirects@[k] == (url_id, fid));
                        }
                    }
                    assert forall|id: usize| #[trigger] self.concluded@.contains(id) implies
                        s1.contains(id) by {
                        assert(s0.contains(id));
                    }
                }
                Some(fid)
            },
            None => None,
        }
    }

    /// Reaps a failed request task: the id gets its one retry if it has not
    /// had it.
    pub fn fail_request(&mut self, url_id: usize)
        requires
            old(self).wf(),
            old(self).state.requests >= 1,
            url_id < old(self).rec.urls@.len(),
        ensures
            final(self).wf(),
            final(self).cfg == old(self).cfg,
            final(self).rec.urls@ == old(self).rec.urls@,
            final(self).rec.scrapes@ == old(self).rec.scrapes@,
            final(self).rec.redirects@ == old(self).rec.redirects@,
            final(self).state.time == old(self).state.time,
            final(self).state.requests == old(self).state.requests - 1,
            final(self).state.processes == old(self).state.processes,
            final(self).state.conclusions@ == old(self).state.conclusions@,
            final(self).dispatches@ == old(self).dispatches@,
            final(self).concluded@ == old(self).concluded@,
            final(self).written@ == old(self).written@,
            if old(self).rec.fails_set().contains(url_id) {
                final(self).rec.fails@ == old(self).rec.fails@ && final(self).state.pending@ == old(self).state.pending@
            } else {
                final(self).rec.fails@ == old(self).rec.fails@.push(url_id) && final(self).state.pending@ == old(self).state.pending@.push(url_id)
            },
    {
        self.state.requests -= 1;
        self.fail(url_id);
    }

    /// Reaps a failed process task: same retry policy as a failed request.
    pub fn fail_process(&mut self, url_id: usize)
        requires
            old(self).wf(),
            old(self).state.processes >= 1,
            url_id < old(self).rec.urls@.len(),
        ensures
            final(self).wf(),
            final(self).cfg == old(self).cfg,
            final(self).rec.urls@ == old(self).rec.urls@,
            final(self).rec.scrapes@ == old(self).rec.scrapes@,
            final(self).rec.redirects@ == old(self).rec.redirects@,
            final(self).state.time == old(self).state.time,
            final(self).state.requests == old(self).state.requests,
            final(self).state.processes == old(self).state.processes - 1,
            final(self).state.conclusions@ == old(self).state.conclusions@,
            final(self).dispatches@ == old(self).dispatches@,
            final(self).concluded@ == old(self).concluded@,
            final(self).written@ == old(self).written@,
            if old(self).rec.fails_set().contains(url_id) {
                final(self).rec.fails@ == old(self).rec.fails@ && final(self).state.pending@ == old(self).state.pending@
            } else {
                final(self).rec.fails@ == old(self).rec.fails@.push(url_id) && final(self).state.pending@ == old(self).state.pending@.push(url_id)
            },
    {
        self.state.processes -= 1;
        self.fail(url_id);
    }

    /// Reaps a request task whose result was lost (the task itself
    /// failed): the in-flight count drops; the id cannot be retried, since
    /// it is no longer known.
    pub fn abandon_request(&mut self)
        requires
            old(self).wf(),
            old(self).state.requests >= 1,
        ensures
            final(self).wf(),
            *final(self) == (Scheduler {
                state: SchedulerState {
                    requests: (old(self).state.requests - 1) as usize,
                    ..old(self).state
                },
                ..*old(self)
            }),
    {
        self.state.requests -= 1;
    }

    /// Reaps a process task whose result was lost, analogously.
    pub fn abandon_process(&mut self)
        requires
            old(self).wf(),
            old(self).state.processes >= 1,
        ensures
            final(self).wf(),
            *final(self) == (Scheduler {
                state: SchedulerState {
                    processes: (old(self).state.processes - 1) as usize,
                    ..old(self).state
                },
                ..*old(self)
            }),
    {
        self.state.processes -= 1;
    }

    /// Reaps a successful process task: its conclusion joins the FIFO of
    /// conclusions awaiting post-processing. The id must have been scraped,
    /// which the caller checks with `rec.is_scraped`.
    pub fn push_conclusion(&mut self, conclusion: Conclusion)
        requires
            old(self).wf(),
            old(self).state.processes >= 1,
            old(self).rec.scrapes_set().contains(conclusion.url_id),
        ensures
            final(self).wf(),
            final(self).cfg == old(self).cfg,
            final(self).rec.urls@ == old(self).rec.urls@,
            final(self).rec.scrapes@ == old(self).rec.scrapes@,
            final(self).rec.fails@ == old(self).rec.fails@,
            final(self).rec.redirects@ == old(self).rec.redirects@,
            final(self).state.time == old(self).state.time,
            final(self).state.pending@ == old(self).state.pending@,
            final(self).state.requests == old(self).state.requests,
            final(self).state.processes == old(self).state.processes - 1,
            final(self).state.conclusions@ == old(self).state.conclusions@.push(conclusion),
            final(self).dispatches@ == old(self).dispatches@,
            final(self).concluded@ == old(self).concluded@.insert(conclusion.url_id),
            final(self).written@ == old(self).written@,
    {
        self.state.processes -= 1;
        self.state.conclusions.push(conclusion);
        proof {
            self.concluded@ = self.concluded@.insert(conclusion.url_id);
        }
        proof {
            let c0 = old(self).state.conclusions@;
            let c1 = self.state.conclusions@;
            let done = self.concluded@;
            assert forall|k: int| 0 <= k < c1.len() implies done.contains(
                (#[trigger] c1[k]).url_id,
            ) by {
                if k < c0.len() {
                    assert(c1[k] == c0[k]);
                    assert(old(self).concluded@.contains(c0[k].url_id));
                } else {
                    assert(c1[k] == conclusion);
                }
            }
            assert forall|id: usize| #[trigger] done.contains(id) implies
                self.rec.scrapes_set().contains(id) by {
                if id != conclusion.url_id {
                    assert(old(self).concluded@.contains(id));
                }
            }
            assert forall|id: usize| #[trigger] self.written@.contains(id) implies done.contains(
                id,
            ) by {
                assert(old(self).concluded@.contains(id));
            }
        }
    }

    /// Attempts a ring promotion once everything has drained: consumes one
    /// wave and makes its deferred queue the new pending queue. Returns
    /// whether a wave was promoted.
    pub fn increment_ring(&mut self) -> (r: bool)
        requires
            old(self).wf(),
            old(self).state.pending@.len() == 0,
        ensures
            final(self).wf(),
            final(self).rec == old(self).rec,
            final(self).cfg.delay == old(self).cfg.delay,
            final(self).cfg.filter == old(self).cfg.filter,
            final(self).cfg.blacklist == old(self).cfg.blacklist,
            final(self).cfg.disregard_html == old(self).cfg.disregard_html,
            final(self).cfg.disregard_other == old(self).cfg.disregard_other,
            final(self).cfg.html_dir == old(self).cfg.html_dir,
            final(self).cfg.other_dir == old(self).cfg.other_dir,
            final(self).cfg.log_dir == old(self).cfg.log_dir,
            final(self).state.time == old(self).state.time,
            final(self).state.requests == old(self).state.requests,
            final(self).state.processes == old(self).state.processes,
            final(self).state.conclusions@ == old(self).state.conclusions@,
            final(self).dispatches@ == old(self).dispatches@,
            final(self).concluded@ == old(self).concluded@,
            final(self).written@ == old(self).written@,
            final(self).changes == old(self).changes,
            r == (match old(self).cfg.ring {
                Some(ring) => ring.current < ring.max,
                None => false,
            }),
            if r {
                final(self).state.pending@ == old(self).ring_next() && final(self).ring_next()
                    == Seq::<usize>::empty() && (match (old(self).cfg.ring, final(self).cfg.ring) {
                    (Some(before), Some(after)) => after.current == before.current + 1
                        && after.max == before.max,
                    _ => false,
                })
            } else {
                final(self).state.pending@ == old(self).state.pending@ && final(self).cfg.ring
                    == old(self).cfg.ring
            },
    {
        let mut ring_local: Option<Ring> = None;
        core::mem::swap(&mut ring_local, &mut self.cfg.ring);
        match ring_local {
            Some(mut ring) => {
                let res = ring.increment();
                self.cfg.ring = Some(ring);
                match res {
                    Some(next) => {
                        self.state.pending = next;
                        proof {
                            let d = self.dispatches@;
                            let p0 = old(self).state.pending@;
                            let p1 = self.state.pending@;
                            let r0 = old(self).ring_next();
                            let r1 = self.ring_next();
                            let f = self.rec.fails_set();
                            assert(p1 == r0);
                            assert forall|id: usize|
                                #[trigger] occ_of(d, p1, r1, id) <= 1 + (if f.contains(id) {
                                    1int
                                } else {
                                    0int
                                }) by {
                                lemma_count_zero_of_empty(p0, id);
                                lemma_count_zero_of_empty(r1, id);
                                assert(occ_of(d, p0, r0, id) <= 1 + (if f.contains(id) {
                                    1int
                                } else {
                                    0int
                                }));
                            }
                            assert forall|id: usize|
                                id as int >= self.rec.urls@.len() as int implies #[trigger] occ_of(
                                d,
                                p1,
                                r1,
                                id,
                            ) == 0 by {
                                lemma_count_zero_of_empty(p0, id);
                                lemma_count_zero_of_empty(r1, id);
                                assert(occ_of(d, p0, r0, id) == 0);
                            }
                        }
                        true
                    },
                    None => false,
                }
            },
            None => false,
        }
    }

    /// Interns the URL without ever scheduling it: the blacklist path,
    /// which prevents a later revisit.
    fn intern(&mut self, url: String)
        requires
            old(self).wf(),
        ensures
            final(self).wf(),
            final(self).cfg == old(self).cfg,
            final(self).rec.scrapes@ == old(self).rec.scrapes@,
            final(self).rec.fails@ == old(self).rec.fails@,
            final(self).rec.redirects@ == old(self).rec.redirects@,
            final(self).state == old(self).state,
            final(self).dispatches@ == old(self).dispatches@,
            final(self).concluded@ == old(self).concluded@,
            final(self).written@ == old(self).written@,
            final(self).changes == old(self).changes,
            final(self).rec.urls_seq() == (if old(self).rec.known(url@) {
                old(self).rec.urls_seq()
            } else {
                old(self).rec.urls_seq().push(url@)
            }),
    {
        let ghost n0 = self.rec.urls@.len() as int;
        match self.rec.check_add_url(url) {
            Ok(_) => {
                proof {
                    lemma_horizon_grow(
                        self.dispatches@,
                        self.state.pending@,
                        self.ring_next(),
                        n0,
                        self.rec.urls@.len() as int,
                    );
                    lemma_ids_below_mono(
                        self.rec.fails_set(),
                        n0,
                        self.rec.urls@.len() as int,
                    );
                    lemma_ids_below_mono(
                        self.rec.scrapes_set(),
                        n0,
                        self.rec.urls@.len() as int,
                    );
                    lemma_redirects_mono(
                        self.rec.redirects@,
                        n0,
                        self.rec.urls@.len() as int,
                        self.rec.scrapes_set(),
                    );
                }
            },
            Err(_) => {},
        }
    }

    /// Commits one HTML conclusion: every href goes to the pending queue,
    /// the ring or intern-only per the blacklist and the filter; every image
    /// source is scheduled unfiltered unless non-HTML resources are
    /// disregarded; and unless HTML is disregarded, the body is handed back
    /// to persist under `{html_dir}/{url_id}.html`.
    fn process_html(&mut self, url_id: usize, text: String, hrefs: Vec<String>, imgs: Vec<
        String,
    >) -> (r: Persist)
        requires
            old(self).wf(),
            old(self).concluded@.contains(url_id),
        ensures
            final(self).wf(),
            final(self).dispatch_view() == html_dispatch(
                old(self).cfg,
                old(self).dispatch_view(),
                hrefs.deep_view(),
                imgs.deep_view(),
            ),
            final(self).cfg.delay == old(self).cfg.delay,
            final(self).cfg.filter == old(self).cfg.filter,
            final(self).cfg.blacklist == old(self).cfg.blacklist,
            final(self).cfg.disregard_html == old(self).cfg.disregard_html,
            final(self).cfg.disregard_other == old(self).cfg.disregard_other,
            final(self).cfg.html_dir == old(self).cfg.html_dir,
            final(self).cfg.other_dir == old(self).cfg.other_dir,
            final(self).cfg.log_dir == old(self).cfg.log_dir,
            (final(self).cfg.ring is Some) == (old(self).cfg.ring is Some),
            final(self).rec.scrapes@ == old(self).rec.scrapes@,
            final(self).rec.fails@ == old(self).rec.fails@,
            final(self).rec.redirects@ == old(self).rec.redirects@,
            final(self).state.time == old(self).state.time,
            final(self).state.requests == old(self).state.requests,
            final(self).state.processes == old(self).state.processes,
            final(self).state.conclusions@ == old(self).state.conclusions@,
            final(self).dispatches@ == old(self).dispatches@,
            final(self).concluded@ == old(self).concluded@,
            final(self).changes == old(self).changes,
            if old(self).cfg.disregard_html {
                final(self).written@ == old(self).written@ && r is Nothing
            } else {
                final(self).written@ == old(self).written@.insert(url_id) && (r matches
                Persist::File { url_id: wid, path, bytes } && wid == url_id && path@ == old(self).cfg.html_dir@ + "/"@ + dec_digits(url_id as nat) + ".html"@ && bytes@
                    == vstd::utf8::encode_utf8(text@))
            },
    {
        let ghost cfg0 = self.cfg;
        let ghost v0 = self.dispatch_view();
        let n: usize = hrefs.len();
        let mut i: usize = 0;
        proof {
            assert(hrefs.deep_view().subrange(0, 0) =~= Seq::<Seq<char>>::empty());
        }
        while i < n
            invariant
                self.wf(),
                n == hrefs@.len(),
                i <= n,
                self.cfg.delay == cfg0.delay,
                self.cfg.filter == cfg0.filter,
                self.cfg.blacklist == cfg0.blacklist,
                self.cfg.disregard_html == cfg0.disregard_html,
                self.cfg.disregard_other == cfg0.disregard_other,
                self.cfg.html_dir == cfg0.html_dir,
                self.cfg.other_dir == cfg0.other_dir,
                self.cfg.log_dir == cfg0.log_dir,
                (self.cfg.ring is Some) == (cfg0.ring is Some),
                self.dispatch_view() == fold_hrefs(
                    cfg0,
                    v0,
                    hrefs.deep_view().subrange(0, i as int),
                ),
                self.rec.scrapes@ == old(self).rec.scrapes@,
                self.rec.fails@ == old(self).rec.fails@,
                self.rec.redirects@ == old(self).rec.redirects@,
                self.state.time == old(self).state.time,
                self.state.requests == old(self).state.requests,
                self.state.processes == old(self).state.processes,
                self.state.conclusions@ == old(self).state.conclusions@,
                self.dispatches@ == old(self).dispatches@,
                self.concluded@ == old(self).concluded@,
                self.written@ == old(self).written@,
                self.changes == old(self).changes,
            decreases n - i,
        {
            let ghost pre = hrefs.deep_view().subrange(0, i as int);
            let ghost cur = hrefs.deep_view().subrange(0, i + 1);
            let ghost mid = self.dispatch_view();
            let href = hrefs[i].clone();
            proof {
                assert(href@ == hrefs.deep_view()[i as int]);
                assert(cur =~= pre.push(href@));
                lemma_fold_hrefs_push(cfg0, v0, pre, href@);
            }
            if self.cfg.url_in_blacklist(&href) {
                proof {
                    assert(cfg0.blacklist_matches(href@));
                }
                self.intern(href);
            } else if self.cfg.url_in_filter(&href) {
                proof {
                    assert(!cfg0.blacklist_matches(href@));
                    assert(cfg0.filter_matches(href@));
                }
                self.add_pending(href);
            } else {
                proof {
                    assert(!cfg0.blacklist_matches(href@));
                    assert(!cfg0.filter_matches(href@));
                }
                self.add_next_pending(href);
            }
            proof {
                assert(self.dispatch_view() == href_step(cfg0, mid, hrefs.deep_view()[i as int]));
                assert(self.dispatch_view() == fold_hrefs(cfg0, v0, cur));
            }
            i += 1;
        }
        proof {
            assert(hrefs.deep_view().subrange(0, n as int) =~= hrefs.deep_view());
        }
        let ghost v1 = self.dispatch_view();
        if !self.cfg.disregard_other {
            let m: usize = imgs.len();
            let mut j: usize = 0;
            proof {
                assert(imgs.deep_view().subrange(0, 0) =~= Seq::<Seq<char>>::empty());
            }
            while j < m
                invariant
                    self.wf(),
                    m == imgs@.len(),
                    j <= m,
                    self.cfg.delay == cfg0.delay,
                    self.cfg.filter == cfg0.filter,
                    self.cfg.blacklist == cfg0.blacklist,
                    self.cfg.disregard_html == cfg0.disregard_html,
                    self.cfg.disregard_other == cfg0.disregard_other,
                    self.cfg.html_dir == cfg0.html_dir,
                    self.cfg.other_dir == cfg0.other_dir,
                    self.cfg.log_dir == cfg0.log_dir,
                    (self.cfg.ring is Some) == (cfg0.ring is Some),
                    self.dispatch_view() == fold_imgs(v1, imgs.deep_view().subrange(0, j as int)),
                    self.rec.scrapes@ == old(self).rec.scrapes@,
                    self.rec.fails@ == old(self).rec.fails@,
                    self.rec.redirects@ == old(self).rec.redirects@,
                    self.state.time == old(self).state.time,
                    self.state.requests == old(self).state.requests,
                    self.state.processes == old(self).state.processes,
                    self.state.conclusions@ == old(self).state.conclusions@,
                    self.dispatches@ == old(self).dispatches@,
                    self.concluded@ == old(self).concluded@,
                    self.written@ == old(self).written@,
                    self.changes == old(self).changes,
                decreases m - j,
            {
                let ghost pre = imgs.deep_view().subrange(0, j as int);
                let ghost cur = imgs.deep_view().subrange(0, j + 1);
                let ghost mid = self.dispatch_view();
                let img = imgs[j].clone();
                proof {
                    assert(img@ == imgs.deep_view()[j as int]);
                    assert(cur =~= pre.push(img@));
                    lemma_fold_imgs_push(v1, pre, img@);
                }
                self.add_pending(img);
                proof {
                    assert(self.dispatch_view() == img_step(mid, imgs.deep_view()[j as int]));
                    assert(self.dispatch_view() == fold_imgs(v1, cur));
                }
                j += 1;
            }
            proof {
                assert(imgs.deep_view().subrange(0, m as int) =~= imgs.deep_view());
            }
        }
        if !self.cfg.disregard_html {
            let mut path = self.cfg.html_dir.clone();
            path.append("/");
            let digits = usize_to_string(url_id);
            path.append(digits.as_str());
            path.append(".html");
            let bytes = text.as_str().as_bytes_vec();
            proof {
                self.written@ = self.written@.insert(url_id);
                assert forall|id: usize| #[trigger] self.written@.contains(id) implies
                    self.concluded@.contains(id) by {
                    if id == url_id {
                        assert(old(self).concluded@.contains(url_id));
                    } else {
                        assert(old(self).written@.contains(id));
                    }
                }
                assert(path@ =~= old(self).cfg.html_dir@ + "/"@ + dec_digits(url_id as nat)
                    + ".html"@);
            }
            Persist::File { url_id, path, bytes }
        } else {
            Persist::Nothing
        }
    }

    /// Commits one non-HTML conclusion: unless such resources are
    /// disregarded, the bytes are handed back to persist under
    /// `{other_dir}/{url_id}{extension}`.
    fn process_other(&mut self, url_id: usize, extension: &String, bytes: Vec<u8>) -> (r: Persist)
        requires
            old(self).wf(),
            old(self).concluded@.contains(url_id),
        ensures
            final(self).wf(),
            final(self).cfg == old(self).cfg,
            final(self).rec == old(self).rec,
            final(self).state == old(self).state,
            final(self).dispatches@ == old(self).dispatches@,
            final(self).concluded@ == old(self).concluded@,
            final(self).changes == old(self).changes,
            if old(self).cfg.disregard_other {
                final(self).written@ == old(self).written@ && r is Nothing
            } else {
                final(self).written@ == old(self).written@.insert(url_id) && (r matches
                Persist::File { url_id: wid, path, bytes: b } && wid == url_id && path@ == old(self).cfg.other_dir@ + "/"@ + dec_digits(url_id as nat) + extension@ && b@
                    == bytes@)
            },
    {
        if self.cfg.disregard_other {
            return Persist::Nothing;
        }
        let mut path = self.cfg.other_dir.clone();
        path.append("/");
        let digits = usize_to_string(url_id);
        path.append(digits.as_str());
        path.append(extension.as_str());
        proof {
            self.written@ = self.written@.insert(url_id);
            assert forall|id: usize| #[trigger] self.written@.contains(id) implies
                self.concluded@.contains(id) by {
                if id == url_id {
                    assert(old(self).concluded@.contains(url_id));
                } else {
                    assert(old(self).written@.contains(id));
                }
            }
            assert(path@ =~= old(self).cfg.other_dir@ + "/"@ + dec_digits(url_id as nat)
                + extension@);
        }
        Persist::File { url_id, path, bytes }
    }

    /// Pops the front conclusion and commits it: for HTML, dispatches its
    /// discovered links and hands back the body to persist; for any other
    /// resource, hands back its bytes under the derived extension label.
    /// Returns `None` when no conclusion is pending. On a write error the
    /// caller fails the id carried in the returned action.
    pub fn process_one_conclusion(&mut self) -> (r: Option<Persist>)
        requires
            old(self).wf(),
        ensures
            final(self).wf(),
            final(self).cfg.delay == old(self).cfg.delay,
            final(self).cfg.filter == old(self).cfg.filter,
            final(self).cfg.blacklist == old(self).cfg.blacklist,
            final(self).cfg.disregard_html == old(self).cfg.disregard_html,
            final(self).cfg.disregard_other == old(self).cfg.disregard_other,
            final(self).cfg.html_dir == old(self).cfg.html_dir,
            final(self).cfg.other_dir == old(self).cfg.other_dir,
            final(self).cfg.log_dir == old(self).cfg.log_dir,
            (final(self).cfg.ring is Some) == (old(self).cfg.ring is Some),
            final(self).rec.scrapes@ == old(self).rec.scrapes@,
            final(self).rec.fails@ == old(self).rec.fails@,
            final(self).rec.redirects@ == old(self).rec.redirects@,
            final(self).state.time == old(self).state.time,
            final(self).state.requests == old(self).state.requests,
            final(self).state.processes == old(self).state.processes,
            final(self).dispatches@ == old(self).dispatches@,
            final(self).concluded@ == old(self).concluded@,
            final(self).changes == old(self).changes,
            match r {
                None => {
                    &&& old(self).state.conclusions@.len() == 0
                    &&& final(self).state.conclusions@ == old(self).state.conclusions@
                    &&& final(self).rec.urls@ == old(self).rec.urls@
                    &&& final(self).state.pending@ == old(self).state.pending@
                    &&& final(self).ring_next() == old(self).ring_next()
                    &&& final(self).written@ == old(self).written@
                },
                Some(p) => {
                    &&& old(self).state.conclusions@.len() > 0
                    &&& final(self).state.conclusions@ == old(self).state.conclusions@.drop_first()
                    &&& (match old(self).state.conclusions@[0].content {
                        FileContent::Html(text, hrefs, imgs) => {
                            &&& final(self).dispatch_view() == html_dispatch(
                                old(self).cfg,
                                old(self).dispatch_view(),
                                hrefs.deep_view(),
                                imgs.deep_view(),
                            )
                            &&& if old(self).cfg.disregard_html {
                                final(self).written@ == old(self).written@ && p is Nothing
                            } else {
                                final(self).written@ == old(self).written@.insert(
                                    old(self).state.conclusions@[0].url_id,
                                ) && (p matches Persist::File { url_id: wid, path, bytes }
                                    && wid == old(self).state.conclusions@[0].url_id && path@
                                    == old(self).cfg.html_dir@ + "/"@ + dec_digits(
                                    old(self).state.conclusions@[0].url_id as nat,
                                ) + ".html"@ && bytes@ == vstd::utf8::encode_utf8(text@))
                            }
                        },
                        FileContent::Other(extension, bytes) => {
                            &&& final(self).rec.urls@ == old(self).rec.urls@
                            &&& final(self).state.pending@ == old(self).state.pending@
                            &&& final(self).ring_next() == old(self).ring_next()
                            &&& if old(self).cfg.disregard_other {
                                final(self).written@ == old(self).written@ && p is Nothing
                            } else {
                                final(self).written@ == old(self).written@.insert(
                                    old(self).state.conclusions@[0].url_id,
                                ) && (p matches Persist::File { url_id: wid, path, bytes: b }
                                    && wid == old(self).state.conclusions@[0].url_id && path@
                                    == old(self).cfg.other_dir@ + "/"@ + dec_digits(
                                    old(self).state.conclusions@[0].url_id as nat,
                                ) + extension@ && b@ == bytes@)
                            }
                        },
                    })
                },
            },
    {
        if self.state.conclusions.len() == 0 {
            return None;
        }
        let conclusion = self.state.conclusions.remove(0);
        proof {
            assert(old(self).state.conclusions@[0] == conclusion);
            assert(old(self).concluded@.contains(conclusion.url_id));
            assert(self.state.conclusions@ =~= old(self).state.conclusions@.drop_first());
            assert forall|k: int|
                0 <= k < self.state.conclusions@.len() implies self.concluded@.contains(
                (#[trigger] self.state.conclusions@[k]).url_id,
            ) by {
                assert(self.state.conclusions@[k] == old(self).state.conclusions@[k + 1]);
            }
        }
        let Conclusion { url_id, content } = conclusion;
        match content {
            FileContent::Html(text, hrefs, imgs) => {
                Some(self.process_html(url_id, text, hrefs, imgs))
            },
            FileContent::Other(extension, bytes) => {
                Some(self.process_other(url_id, &extension, bytes))
            },
        }
    }

    /// Resets the pacing cursor, as at the start of a run.
    pub fn reset_time(&mut self, now: u64)
        requires
            old(self).wf(),
        ensures
            final(self).wf(),
            *final(self) == (Scheduler {
                state: SchedulerState { time: now, ..old(self).state },
                ..*old(self)
            }),
    {
        self.state.time = now;
    }

    /// Any of the four record cardinalities differs from what change
    /// detection last saw.
    pub open spec fn lens_moved(&self) -> bool {
        ||| self.rec.urls@.len() != self.last_lens.0
        ||| self.rec.scrapes@.len() != self.last_lens.1
        ||| self.rec.fails@.len() != self.last_lens.2
        ||| self.rec.redirects@.len() != self.last_lens.3
    }

    /// Change detection for the record snapshot: bumps the change counter
    /// when any record cardinality moved since the last call, and reports
    /// whether a snapshot write is due now — exactly on every
    /// `WRITE_FREQUENCY`-th change.
    pub fn note_changes(&mut self) -> (r: bool)
        requires
            old(self).wf(),
        ensures
            final(self).wf(),
            final(self).cfg == old(self).cfg,
            final(self).rec == old(self).rec,
            final(self).state == old(self).state,
            final(self).dispatches@ == old(self).dispatches@,
            final(self).concluded@ == old(self).concluded@,
            final(self).written@ == old(self).written@,
            final(self).last_lens == (if old(self).lens_moved() {
                (
                    old(self).rec.urls@.len() as usize,
                    old(self).rec.scrapes@.len() as usize,
                    old(self).rec.fails@.len() as usize,
                    old(self).rec.redirects@.len() as usize,
                )
            } else {
                old(self).last_lens
            }),
            final(self).changes == (if old(self).lens_moved() {
                if old(self).changes + 1 == WRITE_FREQUENCY {
                    0u8
                } else {
                    (old(self).changes + 1) as u8
                }
            } else {
                old(self).changes
            }),
            r == (old(self).lens_moved() && old(self).changes + 1 == WRITE_FREQUENCY),
    {
        let lens = self.rec.lens();
        if lens.0 != self.last_lens.0 || lens.1 != self.last_lens.1 || lens.2 != self.last_lens.2
            || lens.3 != self.last_lens.3 {
            self.last_lens = lens;
            self.changes = if self.changes + 1 == WRITE_FREQUENCY {
                0
            } else {
                self.changes + 1
            };
            self.changes == 0
        } else {
            false
        }
    }
}

/// Single retry: across a run, no url id is dispatched as a request task
/// more than twice. The dispatch history is the scheduler's ghost multiset;
/// the bound follows from the invariant that dispatches so far plus queued
/// occurrences never exceed the id's retry budget.
pub proof fn lemma_single_retry(s: &Scheduler, id: usize)
    requires
        s.wf(),
    ensures
        s.dispatches@.count(id) <= 2,
{
    assert(occ_of(s.dispatches@, s.state.pending@, s.ring_next(), id) <= 1 + (
    if s.rec.fails_set().contains(id) {
        1int
    } else {
        0int
    }));
}

/// Pacing: two consecutive dispatches lie at least `delay - eps` apart,
/// where `eps` bounds how promptly a dispatch follows the opening of its
/// window. `time0` is the value of `state.time` before the first dispatch:
/// per the contract of `check_spawn_request`, a dispatch happens only once
/// `delay` has elapsed past `state.time`, which then advances by exactly
/// `delay`, so the second dispatch cannot happen before
/// `time0 + 2 * delay`.
pub proof fn lemma_pacing(time0: int, delay: int, eps: int, now1: int, now2: int)
    requires
        0 <= eps,
        time0 + delay <= now1,
        now1 <= time0 + delay + eps,
        time0 + 2 * delay <= now2,
    ensures
        now2 - now1 >= delay - eps,
{
}

/// No double-scrape after redirect collapse: when the record holds
/// `redirects[a] = b` and `a` was never scraped, then `a` and `b` differ,
/// `b` is scraped, and nothing was ever written for `a` — the response that
/// produced the redirect was committed under `b` alone.
pub proof fn lemma_redirect_collapse(s: &Scheduler, a: usize, b: usize)
    requires
        s.wf(),
        s.rec.redirects_map().dom().contains(a),
        s.rec.redirects_map()[a] == b,
        !s.rec.scrapes_set().contains(a),
    ensures
        a != b,
        s.rec.scrapes_set().contains(b),
        !s.written@.contains(a),
{
    let w = choose|w: int|
        0 <= w < s.rec.redirects@.len() && (#[trigger] s.rec.redirects@[w]).0 == a;
    assert(s.rec.redirects@[w].1 == b);
    if s.written@.contains(a) {
        assert(s.concluded@.contains(a));
        assert(s.rec.scrapes_set().contains(a));
    }
}

/// The same collapse guarantee for a source that was scraped but never
/// concluded — the case of a redirect source whose own earlier fetch was
/// reaped with a non-2xx status, which scrapes the id before the status
/// check fails the process task: as long as no process task delivered a
/// conclusion for `a`, nothing was ever written for `a`.
pub proof fn lemma_redirect_collapse_unconcluded(s: &Scheduler, a: usize, b: usize)
    requires
        s.wf(),
        s.rec.redirects_map().dom().contains(a),
        s.rec.redirects_map()[a] == b,
        !s.concluded@.contains(a),
    ensures
        a != b,
        s.rec.scrapes_set().contains(b),
        !s.written@.contains(a),
{
    let w = choose|w: int|
        0 <= w < s.rec.redirects@.len() && (#[trigger] s.rec.redirects@[w]).0 == a;
    assert(s.rec.redirects@[w].1 == b);
    if s.written@.contains(a) {
        assert(s.concluded@.contains(a));
    }
}

} // verus!

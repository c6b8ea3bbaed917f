//! The crawl engine: a work queue, a visited set with an atomic claim, an
//! admission gate of fixed capacity, and the decisions that drive a crawl to
//! completion. The engine does no I/O: a driver asks it what to do next
//! (`step`), performs the fetch, and hands the outcome back (`finish`).
use vstd::prelude::*;
use crate::link::{opt_view, parse_canonical, url_parse, canonical_parsed};
use crate::parser::{strs, page_links, page_links_of, get_meta_and_title, first_of, first_present,
    matched_text, matched_attr, description_selector};

verus! {

/// `reqwest::Error`, carried unopened in a failed fetch.
#[verifier::external_type_specification]
#[verifier::external_body]
pub struct ExRequestError(reqwest::Error);

/// Why fetching a page failed.
pub enum FetchError {
    /// The HTTP request or the reading of its body failed.
    RequestError(reqwest::Error),
    /// The URL to fetch did not parse.
    UrlParseError(url::ParseError),
}

/// Why a crawl cannot start.
pub enum CrawlError {
    /// The base URL does not parse.
    InvalidBase(url::ParseError),
    /// The seed URL does not parse.
    InvalidSeed(url::ParseError),
    /// The seed URL's scheme is neither `http` nor `https`.
    UnsupportedSeed,
    /// The admission ceiling is zero, so no page could ever be fetched.
    ZeroCapacity,
}

/// What the driver of a crawl does next.
pub enum Step {
    /// Fetch this URL, holding one admission slot until `finish` is called.
    Fetch(String),
    /// Every slot is taken, or the queue is empty while fetches are running:
    /// wait for a running fetch to finish.
    Wait,
    /// The queue is empty and nothing is running: the crawl is complete.
    Done,
}

/// What a finished fetch reported.
pub enum PageReport {
    /// The page was fetched; its title and description, if any.
    Page { url: String, title: Option<String>, description: Option<String> },
    /// The fetch failed.
    Failed { url: String, error: FetchError },
}

/// The state of one crawl run.
pub struct Crawler {
    base: String,
    capacity: usize,
    queue: Vec<String>,
    visited: Vec<String>,
    in_flight: Vec<String>,
}

/// One claim of `u` against the claimed URLs `v`: the claimed URLs after it,
/// and whether it succeeded.
pub open spec fn claim_step(v: Seq<Seq<char>>, u: Seq<char>) -> (Seq<Seq<char>>, bool) {
    if v.contains(u) {
        (v, false)
    } else {
        (v.push(u), true)
    }
}

/// Index of the last URL of `q` that is not in `v`, or -1 when there is none.
pub open spec fn last_fresh(q: Seq<Seq<char>>, v: Seq<Seq<char>>) -> int
    decreases q.len(),
{
    if q.len() == 0 {
        -1
    } else if !v.contains(q.last()) {
        q.len() - 1
    } else {
        last_fresh(q.drop_last(), v)
    }
}

/// What one `step` does. At the ceiling it waits and changes nothing.
/// Otherwise it pops URLs from the end of the queue, discarding those already
/// claimed, until it claims one: that one is fetched and holds a slot. When
/// the queue runs out it is done if nothing runs, and waits otherwise.
pub open spec fn stepped(pre: Crawler, post: Crawler, r: Step) -> bool {
    &&& post.capacity_view() == pre.capacity_view()
    &&& post.base_view() == pre.base_view()
    &&& if pre.running().len() >= pre.capacity_view() {
        &&& r is Wait
        &&& post.queue_view() == pre.queue_view()
        &&& post.visited_log() == pre.visited_log()
        &&& post.running() == pre.running()
    } else {
        let q = pre.queue_view();
        let i = last_fresh(q, pre.visited_log());
        if i >= 0 {
            &&& r matches Step::Fetch(u) && u@ == q[i]
            &&& post.queue_view() == q.take(i)
            &&& post.visited_log() == pre.visited_log().push(q[i])
            &&& post.running() == pre.running().push(q[i])
        } else {
            &&& post.queue_view() == Seq::<Seq<char>>::empty()
            &&& post.visited_log() == pre.visited_log()
            &&& post.running() == pre.running()
            &&& if pre.running().len() == 0 {
                r is Done
            } else {
                r is Wait
            }
        }
    }
}

proof fn lemma_last_fresh_bounds(q: Seq<Seq<char>>, v: Seq<Seq<char>>)
    ensures
        -1 <= last_fresh(q, v) < q.len(),
        last_fresh(q, v) >= 0 ==> !v.contains(q[last_fresh(q, v)]),
    decreases q.len(),
{
    if q.len() > 0 && v.contains(q.last()) {
        lemma_last_fresh_bounds(q.drop_last(), v);
    }
}

/// The links of a fetched page that go to the queue: those not claimed yet,
/// in the order the page gave them.
pub open spec fn unclaimed(links: Seq<Seq<char>>, v: Seq<Seq<char>>) -> Seq<Seq<char>> {
    links.filter(|l: Seq<char>| !v.contains(l))
}

/// The body of a successful fetch.
pub open spec fn body_of(outcome: Result<String, FetchError>) -> Option<Seq<char>> {
    match outcome {
        Ok(b) => Some(b@),
        Err(_) => None,
    }
}

/// What `finish` does to the state: the slot held for `url` is released,
/// whatever the outcome, and the unclaimed links of a fetched page (`body`)
/// are queued.
pub open spec fn finished(pre: Crawler, post: Crawler, url: Seq<char>, body: Option<Seq<char>>) -> bool {
    &&& post.capacity_view() == pre.capacity_view()
    &&& post.base_view() == pre.base_view()
    &&& post.visited_log() == pre.visited_log()
    &&& exists|k: int|
        0 <= k < pre.running().len() && pre.running()[k] == url && post.running() == pre.running().remove(
            k,
        )
    &&& post.queue_view() == match body {
        Some(b) => pre.queue_view() + unclaimed(page_links_of(b, pre.base_view()), pre.visited_log()),
        None => pre.queue_view(),
    }
}

/// The claimed URLs after claiming each of `attempts` in turn from `v`.
pub open spec fn claimed_after(v: Seq<Seq<char>>, attempts: Seq<Seq<char>>) -> Seq<Seq<char>>
    decreases attempts.len(),
{
    if attempts.len() == 0 {
        v
    } else {
        claim_step(claimed_after(v, attempts.drop_last()), attempts.last()).0
    }
}

/// How many of the claims of `attempts`, made in turn from `v`, succeed for
/// the URL `u`.
pub open spec fn successes(v: Seq<Seq<char>>, attempts: Seq<Seq<char>>, u: Seq<char>) -> nat
    decreases attempts.len(),
{
    if attempts.len() == 0 {
        0
    } else {
        let prev = attempts.drop_last();
        successes(v, prev, u) + if attempts.last() == u && claim_step(claimed_after(v, prev), u).1 {
            1nat
        } else {
            0nat
        }
    }
}

proof fn lemma_claimed_after_contains(v: Seq<Seq<char>>, attempts: Seq<Seq<char>>, x: Seq<char>)
    ensures
        claimed_after(v, attempts).contains(x) <==> (v.contains(x) || attempts.contains(x)),
    decreases attempts.len(),
{
    if attempts.len() > 0 {
        let prev = attempts.drop_last();
        lemma_claimed_after_contains(v, prev, x);
        let w = claimed_after(v, prev);
        if !w.contains(attempts.last()) {
            assert(w.push(attempts.last()).contains(x) <==> (w.contains(x) || x
                == attempts.last())) by {
                if w.push(attempts.last()).contains(x) {
                    let k = choose|k: int|
                        0 <= k < w.len() + 1 && w.push(attempts.last())[k] == x;
                    if k < w.len() {
                        assert(w[k] == x);
                    }
                }
                if w.contains(x) {
                    let k = choose|k: int| 0 <= k < w.len() && w[k] == x;
                    assert(w.push(attempts.last())[k] == x);
                }
                assert(w.push(attempts.last())[w.len() as int] == attempts.last());
            }
        }
        lemma_contains_drop_last(attempts, x);
    }
}

proof fn lemma_contains_drop_last(s: Seq<Seq<char>>, x: Seq<char>)
    requires
        s.len() > 0,
    ensures
        s.contains(x) <==> (s.drop_last().contains(x) || s.last() == x),
{
    if s.contains(x) {
        let k = choose|k: int| 0 <= k < s.len() && s[k] == x;
        if k < s.len() - 1 {
            assert(s.drop_last()[k] == x);
        }
    }
    if s.drop_last().contains(x) {
        let k = choose|k: int| 0 <= k < s.len() - 1 && s.drop_last()[k] == x;
        assert(s[k] == x);
    }
}

/// Claims are exclusive: of any sequence of claims, of one URL or
/// interleaved with others, exactly one succeeds for a URL that was not
/// claimed before and is among them, and none succeeds for any other.
pub proof fn lemma_one_claim_succeeds(v: Seq<Seq<char>>, attempts: Seq<Seq<char>>, u: Seq<char>)
    ensures
        successes(v, attempts, u) == (if !v.contains(u) && attempts.contains(u) {
            1nat
        } else {
            0nat
        }),
    decreases attempts.len(),
{
    if attempts.len() > 0 {
        let prev = attempts.drop_last();
        lemma_one_claim_succeeds(v, prev, u);
        lemma_claimed_after_contains(v, prev, u);
        lemma_contains_drop_last(attempts, u);
    }
}

/// The admission bound: however a step goes, afterwards no more fetches hold
/// a slot than the ceiling allows.
pub proof fn lemma_admission_bound(pre: Crawler, post: Crawler, r: Step)
    requires
        pre.wf(),
        stepped(pre, post, r),
    ensures
        post.running().len() <= post.capacity_view(),
        post.free_slots() >= 0,
{
    let q = pre.queue_view();
    lemma_last_fresh_bounds(q, pre.visited_log());
}

/// Slots are conserved: a step that hands out a fetch takes exactly one slot
/// and any other step takes none; finishing a fetch, whether it succeeded or
/// failed, gives back exactly the one slot that its URL held, so that URL
/// cannot release again.
pub proof fn lemma_slots_conserved(
    pre: Crawler,
    post: Crawler,
    r: Step,
    done: Crawler,
    url: Seq<char>,
    body: Option<Seq<char>>,
)
    requires
        pre.wf(),
        stepped(pre, post, r),
        post.running().contains(url),
        post.running().no_duplicates(),
        finished(post, done, url, body),
    ensures
        post.free_slots() == pre.free_slots() - (if r is Fetch {
            1int
        } else {
            0int
        }),
        done.free_slots() == post.free_slots() + 1,
        !done.running().contains(url),
{
    let q = pre.queue_view();
    lemma_last_fresh_bounds(q, pre.visited_log());
    let k = choose|k: int|
        0 <= k < post.running().len() && post.running()[k] == url && done.running()
            == post.running().remove(k);
    if done.running().contains(url) {
        let j = choose|j: int| 0 <= j < done.running().len() && done.running()[j] == url;
        if j < k {
            assert(post.running()[j] == url);
        } else {
            assert(post.running()[j + 1] == url);
        }
    }
}

/// A URL is fetched at most once: a step hands out only a URL that was never
/// claimed, and claims it, so however often it is discovered and queued again
/// it is never handed out a second time; the log of claims, which is the log
/// of fetches handed out, holds no URL twice.
pub proof fn lemma_fetched_at_most_once(pre: Crawler, post: Crawler, r: Step)
    requires
        pre.wf(),
        stepped(pre, post, r),
    ensures
        r matches Step::Fetch(u) ==> !pre.visited_log().contains(u@) && post.visited_log()
            == pre.visited_log().push(u@),
        post.visited_log().no_duplicates(),
{
    let q = pre.queue_view();
    lemma_last_fresh_bounds(q, pre.visited_log());
    if r is Fetch {
        let u = q[last_fresh(q, pre.visited_log())];
        let s = post.visited_log();
        assert forall|a: int, b: int| 0 <= a < b < s.len() implies s[a] != s[b] by {
            if b == s.len() - 1 && s[a] == u {
                assert(pre.visited_log()[a] == u);
            }
        }
    }
}

/// The work left in a crawl whose URLs all lie in the finite set `universe`:
/// two for each URL of `universe` not yet claimed, one for each running
/// fetch.
pub open spec fn work_left(c: Crawler, universe: Set<Seq<char>>) -> int {
    (2 * universe.difference(c.visited_set()).len() + c.running().len()) as int
}

/// The work left is never negative and at most twice the size of
/// `universe` plus the admission ceiling: with `lemma_step_progress` and
/// `lemma_finish_progress`, a crawl within a finite `universe` hands out and
/// finishes at most that many fetches before it is done.
pub proof fn lemma_work_left_bounded(c: Crawler, universe: Set<Seq<char>>)
    requires
        c.wf(),
        universe.finite(),
    ensures
        0 <= work_left(c, universe) <= 2 * universe.len() + c.capacity_view(),
{
    vstd::set_lib::lemma_len_subset(universe.difference(c.visited_set()), universe);
}

/// All the URLs that a crawl holds in its queue lie in `universe`.
pub open spec fn queue_within(c: Crawler, universe: Set<Seq<char>>) -> bool {
    forall|i: int| 0 <= i < c.queue_view().len() ==> universe.contains(#[trigger] c.queue_view()[i])
}

proof fn lemma_push_to_set(s: Seq<Seq<char>>, x: Seq<char>)
    ensures
        s.push(x).to_set() == s.to_set().insert(x),
{
    assert forall|y: Seq<char>| s.push(x).to_set().contains(y) <==> s.to_set().insert(x).contains(
        y,
    ) by {
        lemma_contains_drop_last(s.push(x), y);
        assert(s.push(x).drop_last() =~= s);
    }
    assert(s.push(x).to_set() =~= s.to_set().insert(x));
}

/// Termination, for a step: on a link graph whose URLs lie in the finite set
/// `universe`, a step that hands out a fetch lowers the work left; one that
/// waits leaves it as it is and happens only while a fetch runs, whose
/// `finish` is awaited; and one that is done leaves an empty queue and nothing
/// running. The queue stays within `universe`.
pub proof fn lemma_step_progress(pre: Crawler, post: Crawler, r: Step, universe: Set<Seq<char>>)
    requires
        pre.wf(),
        stepped(pre, post, r),
        universe.finite(),
        queue_within(pre, universe),
    ensures
        work_left(post, universe) >= 0,
        r is Fetch ==> work_left(post, universe) < work_left(pre, universe),
        r is Wait ==> work_left(post, universe) == work_left(pre, universe) && pre.running().len() > 0
            && post.queue_view().len() <= pre.queue_view().len(),
        r is Done ==> post.queue_view().len() == 0 && post.running().len() == 0,
        queue_within(post, universe),
{
    let q = pre.queue_view();
    let i = last_fresh(q, pre.visited_log());
    lemma_last_fresh_bounds(q, pre.visited_log());
    if pre.running().len() < pre.capacity_view() && i >= 0 {
        let u = q[i];
        assert(universe.contains(u));
        assert(!pre.visited_set().contains(u));
        lemma_push_to_set(pre.visited_log(), u);
        universe.lemma_set_insert_diff_decreases(pre.visited_set(), u);
        assert forall|j: int| 0 <= j < post.queue_view().len() implies universe.contains(
            #[trigger] post.queue_view()[j],
        ) by {
            assert(post.queue_view()[j] == q[j]);
        }
    }
}

/// Termination, for a finished fetch: when the page's links lie in the
/// finite set `universe`, finishing a fetch lowers the work left, whether the
/// fetch succeeded or failed, and the queue stays within `universe`. With
/// `lemma_step_progress`, every step that does not wait and every finish
/// lowers a quantity that never goes below zero, so a crawl reaches `Done`
/// once every fetch it started has finished.
pub proof fn lemma_finish_progress(
    pre: Crawler,
    post: Crawler,
    url: Seq<char>,
    body: Option<Seq<char>>,
    universe: Set<Seq<char>>,
)
    requires
        pre.wf(),
        finished(pre, post, url, body),
        universe.finite(),
        queue_within(pre, universe),
        body matches Some(b) ==> forall|j: int|
            0 <= j < page_links_of(b, pre.base_view()).len() ==> universe.contains(
                #[trigger] page_links_of(b, pre.base_view())[j],
            ),
    ensures
        work_left(post, universe) < work_left(pre, universe),
        queue_within(post, universe),
{
    assert(post.visited_set() == pre.visited_set());
    if let Some(b) = body {
        let links = page_links_of(b, pre.base_view());
        let added = unclaimed(links, pre.visited_log());
        assert forall|j: int| 0 <= j < post.queue_view().len() implies universe.contains(
            #[trigger] post.queue_view()[j],
        ) by {
            if j >= pre.queue_view().len() {
                let x = added[j - pre.queue_view().len()];
                assert(added.contains(x));
                links.lemma_filter_contains_rev(|l: Seq<char>| !pre.visited_log().contains(l), x);
                let k = choose|k: int| 0 <= k < links.len() && links[k] == x;
                assert(universe.contains(links[k]));
            }
        }
    }
}

/// A step keeps the crawl state well formed.
pub proof fn lemma_stepped_wf(pre: Crawler, post: Crawler, r: Step)
    requires
        pre.wf(),
        stepped(pre, post, r),
    ensures
        post.wf(),
{
    let q = pre.queue_view();
    let i = last_fresh(q, pre.visited_log());
    lemma_last_fresh_bounds(q, pre.visited_log());
    if pre.running().len() < pre.capacity_view() && i >= 0 {
        let u = q[i];
        lemma_fetched_at_most_once(pre, post, r);
        assert forall|j: int| 0 <= j < post.running().len() implies post.visited_log().contains(
            #[trigger] post.running()[j],
        ) by {
            if j < pre.running().len() {
                assert(post.running()[j] == pre.running()[j]);
                let k = choose|k: int|
                    0 <= k < pre.visited_log().len() && pre.visited_log()[k] == pre.running()[j];
                assert(post.visited_log()[k] == post.running()[j]);
            } else {
                assert(post.visited_log()[pre.visited_log().len() as int] == u);
            }
        }
        assert forall|a: int, b: int|
            0 <= a < b < post.running().len() implies post.running()[a] != post.running()[b] by {
            if b == pre.running().len() && post.running()[a] == u {
                assert(post.running()[a] == pre.running()[a]);
                assert(pre.visited_log().contains(pre.running()[a]));
            } else if b < pre.running().len() {
                assert(post.running()[a] == pre.running()[a]);
                assert(post.running()[b] == pre.running()[b]);
            }
        }
    }
}

/// Finishing a fetch keeps the crawl state well formed.
pub proof fn lemma_finished_wf(pre: Crawler, post: Crawler, url: Seq<char>, body: Option<Seq<char>>)
    requires
        pre.wf(),
        finished(pre, post, url, body),
    ensures
        post.wf(),
{
    let k = choose|k: int|
        0 <= k < pre.running().len() && pre.running()[k] == url && post.running()
            == pre.running().remove(k);
    assert forall|j: int| 0 <= j < post.running().len() implies post.visited_log().contains(
        #[trigger] post.running()[j],
    ) by {
        let j0 = if j < k { j } else { j + 1 };
        assert(post.running()[j] == pre.running()[j0]);
        assert(pre.visited_log().contains(pre.running()[j0]));
    }
    assert forall|a: int, b: int|
        0 <= a < b < post.running().len() implies post.running()[a] != post.running()[b] by {
        let a0 = if a < k { a } else { a + 1 };
        let b0 = if b < k { b } else { b + 1 };
        assert(post.running()[a] == pre.running()[a0]);
        assert(post.running()[b] == pre.running()[b0]);
    }
}

/// The links of a fetched page (`None` for a failed fetch) all lie in
/// `universe`.
pub open spec fn links_within(body: Option<Seq<char>>, base: Seq<char>, universe: Set<Seq<char>>) -> bool {
    body matches Some(b) ==> forall|j: int|
        0 <= j < page_links_of(b, base).len() ==> universe.contains(
            #[trigger] page_links_of(b, base)[j],
        )
}

/// One transition of a crawl other than waiting: a step that hands out a
/// fetch, or the finish of a running fetch whose page links lie in
/// `universe`.
pub open spec fn advances(pre: Crawler, post: Crawler, universe: Set<Seq<char>>) -> bool {
    ||| exists|r: Step| stepped(pre, post, r) && r is Fetch
    ||| exists|url: Seq<char>, body: Option<Seq<char>>|
        pre.running().contains(url) && finished(pre, post, url, body) && links_within(
            body,
            pre.base_view(),
            universe,
        )
}

/// Termination of a whole run: on a link graph whose URLs lie in the finite
/// set `universe`, every run of a crawl, as the sequence of states between
/// its transitions other than waits, is well formed throughout and makes at
/// most twice the size of `universe` plus the admission ceiling transitions.
/// Between them, a step either advances, is done (empty queue, nothing
/// running), or waits while a fetch runs (`lemma_step_progress`); so once
/// every fetch it started finishes, a crawl reaches `Done`.
pub proof fn lemma_run_terminates(run: Seq<Crawler>, universe: Set<Seq<char>>)
    requires
        run.len() > 0,
        run[0].wf(),
        universe.finite(),
        queue_within(run[0], universe),
        forall|i: int| 0 <= i < run.len() - 1 ==> advances(run[i], #[trigger] run[i + 1], universe),
    ensures
        run.len() <= 2 * universe.len() + run[0].capacity_view() + 1,
        work_left(run.last(), universe) <= work_left(run[0], universe) - (run.len() - 1),
        forall|i: int|
            0 <= i < run.len() ==> (#[trigger] run[i]).wf() && queue_within(run[i], universe)
                && run[i].capacity_view() == run[0].capacity_view(),
    decreases run.len(),
{
    lemma_work_left_bounded(run[0], universe);
    if run.len() > 1 {
        let rest = run.drop_last();
        assert forall|i: int| 0 <= i < rest.len() - 1 implies advances(
            rest[i],
            #[trigger] rest[i + 1],
            universe,
        ) by {
            assert(rest[i] == run[i] && rest[i + 1] == run[i + 1]);
        }
        lemma_run_terminates(rest, universe);
        let n = run.len() - 1;
        let pre = run[n - 1];
        let post = run[n];
        assert(rest[n - 1] == pre);
        assert(rest.last() == pre);
        assert(rest[0] == run[0]);
        assert(advances(run[n - 1], run[(n - 1) + 1], universe));
        if exists|r: Step| stepped(pre, post, r) && r is Fetch {
            let r = choose|r: Step| stepped(pre, post, r) && r is Fetch;
            lemma_step_progress(pre, post, r, universe);
            lemma_stepped_wf(pre, post, r);
        } else {
            let (url, body) = choose|url: Seq<char>, body: Option<Seq<char>>|
                pre.running().contains(url) && finished(pre, post, url, body) && links_within(
                    body,
                    pre.base_view(),
                    universe,
                );
            lemma_finish_progress(pre, post, url, body, universe);
            lemma_finished_wf(pre, post, url, body);
        }
        lemma_work_left_bounded(run[0], universe);
        lemma_work_left_bounded(post, universe);
        assert forall|i: int| 0 <= i < run.len() implies (#[trigger] run[i]).wf() && queue_within(
            run[i],
            universe,
        ) && run[i].capacity_view() == run[0].capacity_view() by {
            if i < n {
                assert(rest[i] == run[i]);
            }
        }
    }
}


impl Crawler {
    /// The base URL against which discovered links are resolved.
    pub closed spec fn base_view(&self) -> Seq<char> {
        self.base@
    }

    /// The admission ceiling: the most fetches that may run at once.
    pub closed spec fn capacity_view(&self) -> nat {
        self.capacity as nat
    }

    /// The URLs waiting in the work queue.
    pub closed spec fn queue_view(&self) -> Seq<Seq<char>> {
        strs(self.queue@)
    }

    /// Every URL claimed so far, in the order of the claims.
    pub closed spec fn visited_log(&self) -> Seq<Seq<char>> {
        strs(self.visited@)
    }

    /// The URLs whose fetch holds an admission slot.
    pub closed spec fn running(&self) -> Seq<Seq<char>> {
        strs(self.in_flight@)
    }

    /// The visited set.
    pub open spec fn visited_set(&self) -> Set<Seq<char>> {
        self.visited_log().to_set()
    }

    /// The slots that are free.
    pub open spec fn free_slots(&self) -> int {
        self.capacity_view() - self.running().len()
    }

    /// A well-formed crawl state: claims are unique, each running fetch holds
    /// a claimed URL, and no more fetches run than the ceiling admits.
    pub open spec fn wf(&self) -> bool {
        &&& 0 < self.capacity_view()
        &&& self.visited_log().no_duplicates()
        &&& self.running().no_duplicates()
        &&& forall|i: int|
            0 <= i < self.running().len() ==> self.visited_log().contains(#[trigger] self.running()[i])
        &&& self.running().len() <= self.capacity_view()
    }

    /// Starts a crawl of `seed` (canonicalized) with `base` as the context in
    /// which discovered links are resolved, and at most `capacity` fetches
    /// at once.
    pub fn new(seed: &str, base: &str, capacity: usize) -> (r: Result<Crawler, CrawlError>)
        ensures
            r is Ok <==> (url_parse(base@) is Some && canonical_parsed(url_parse(seed@)) is Some
                && capacity > 0),
            r matches Err(CrawlError::InvalidBase(_)) <==> url_parse(base@) is None,
            r matches Err(CrawlError::InvalidSeed(_)) <==> (url_parse(base@) is Some && url_parse(
                seed@,
            ) is None),
            r matches Err(CrawlError::UnsupportedSeed) <==> (url_parse(base@) is Some && url_parse(
                seed@,
            ) is Some && canonical_parsed(url_parse(seed@)) is None),
            r matches Err(CrawlError::ZeroCapacity) <==> (url_parse(base@) is Some
                && canonical_parsed(url_parse(seed@)) is Some && capacity == 0),
            r matches Ok(c) ==> {
                &&& c.wf()
                &&& c.base_view() == base@
                &&& c.capacity_view() == capacity
                &&& c.queue_view() == seq![canonical_parsed(url_parse(seed@))->Some_0]
                &&& c.visited_log() == Seq::<Seq<char>>::empty()
                &&& c.running() == Seq::<Seq<char>>::empty()
            },
    {
        match parse_canonical(base) {
            Err(e) => {
                return Err(CrawlError::InvalidBase(e));
            },
            Ok(_) => {},
        }
        let start = match parse_canonical(seed) {
            Err(e) => {
                return Err(CrawlError::InvalidSeed(e));
            },
            Ok(None) => {
                return Err(CrawlError::UnsupportedSeed);
            },
            Ok(Some(c)) => c,
        };
        if capacity == 0 {
            return Err(CrawlError::ZeroCapacity);
        }
        let mut queue: Vec<String> = Vec::new();
        queue.push(start);
        let c = Crawler {
            base: String::from_str(base),
            capacity,
            queue,
            visited: Vec::new(),
            in_flight: Vec::new(),
        };
        proof {
            assert(c.queue_view() =~= seq![canonical_parsed(url_parse(seed@))->Some_0]);
            assert(c.visited_log() =~= Seq::<Seq<char>>::empty());
            assert(c.running() =~= Seq::<Seq<char>>::empty());
        }
        Ok(c)
    }

    /// Adds `url` to the work queue.
    pub fn push(&mut self, url: String)
        ensures
            final(self).queue_view() == old(self).queue_view().push(url@),
            final(self).visited_log() == old(self).visited_log(),
            final(self).running() == old(self).running(),
            final(self).capacity_view() == old(self).capacity_view(),
            final(self).base_view() == old(self).base_view(),
            old(self).wf() ==> final(self).wf(),
    {
        self.queue.push(url);
        proof {
            assert(final(self).queue_view() =~= old(self).queue_view().push(url@));
        }
    }

    /// Whether `url` has been claimed.
    pub fn is_visited(&self, url: &String) -> (r: bool)
        ensures
            r == self.visited_log().contains(url@),
    {
        let mut i: usize = 0;
        while i < self.visited.len()
            invariant
                i <= self.visited@.len(),
                forall|j: int| 0 <= j < i ==> self.visited_log()[j] != url@,
            decreases self.visited@.len() - i,
        {
            if self.visited[i] == *url {
                assert(self.visited_log()[i as int] == url@);
                return true;
            }
            i = i + 1;
        }
        false
    }

    /// Claims `url` for processing: `true` the first time it is claimed, and
    /// `false` on every later call, which leaves the state unchanged.
    pub fn claim(&mut self, url: &String) -> (r: bool)
        ensures
            (final(self).visited_log(), r) == claim_step(old(self).visited_log(), url@),
            r == !old(self).visited_log().contains(url@),
            final(self).visited_log() == (if r {
                old(self).visited_log().push(url@)
            } else {
                old(self).visited_log()
            }),
            final(self).queue_view() == old(self).queue_view(),
            final(self).running() == old(self).running(),
            final(self).capacity_view() == old(self).capacity_view(),
            final(self).base_view() == old(self).base_view(),
            old(self).wf() ==> final(self).wf(),
    {
        if self.is_visited(url) {
            return false;
        }
        self.visited.push(url.clone());
        proof {
            let s = final(self).visited_log();
            assert(s =~= old(self).visited_log().push(url@));
            if old(self).wf() {
                assert forall|i: int| 0 <= i < old(self).running().len() implies s.contains(
                    #[trigger] old(self).running()[i],
                ) by {
                    let k = choose|k: int|
                        0 <= k < old(self).visited_log().len() && old(self).visited_log()[k]
                            == old(self).running()[i];
                    assert(s[k] == old(self).running()[i]);
                }
            }
        }
        true
    }

    /// The number of free admission slots.
    pub fn available(&self) -> (r: usize)
        requires
            self.wf(),
        ensures
            r == self.free_slots(),
    {
        self.capacity - self.in_flight.len()
    }

    /// The admission ceiling.
    pub fn capacity(&self) -> (r: usize)
        ensures
            r == self.capacity_view(),
    {
        self.capacity
    }

    /// Decides what the driver does next; see `stepped`.
    pub fn step(&mut self) -> (r: Step)
        requires
            old(self).wf(),
        ensures
            final(self).wf(),
            stepped(*old(self), *final(self), r),
    {
        if self.in_flight.len() >= self.capacity {
            return Step::Wait;
        }
        loop
            invariant
                old(self).wf(),
                old(self).running().len() < old(self).capacity_view(),
                self.capacity == old(self).capacity,
                self.base_view() == old(self).base_view(),
                self.visited_log() == old(self).visited_log(),
                self.running() == old(self).running(),
                self.queue_view() == old(self).queue_view().take(self.queue_view().len() as int),
                self.queue_view().len() <= old(self).queue_view().len(),
                last_fresh(old(self).queue_view(), old(self).visited_log()) == last_fresh(
                    self.queue_view(),
                    old(self).visited_log(),
                ),
            decreases self.queue@.len(),
        {
            let ghost q = self.queue_view();
            match self.queue.pop() {
                None => {
                    proof {
                        assert(self.queue_view() =~= Seq::<Seq<char>>::empty());
                    }
                    if self.in_flight.len() == 0 {
                        return Step::Done;
                    } else {
                        return Step::Wait;
                    }
                },
                Some(u) => {
                    proof {
                        assert(self.queue_view() =~= q.drop_last());
                        assert(q.drop_last() =~= old(self).queue_view().take(q.len() - 1));
                    }
                    if self.claim(&u) {
                        self.in_flight.push(u.clone());
                        proof {
                            let pre = *old(self);
                            let post = *final(self);
                            assert(post.running() =~= pre.running().push(u@));
                            assert forall|i: int| 0 <= i < post.running().len() implies post.visited_log().contains(
                                #[trigger] post.running()[i],
                            ) by {
                                if i < pre.running().len() {
                                    let k = choose|k: int|
                                        0 <= k < pre.visited_log().len() && pre.visited_log()[k]
                                            == pre.running()[i];
                                    assert(post.visited_log()[k] == post.running()[i]);
                                } else {
                                    assert(post.visited_log()[pre.visited_log().len() as int] == u@);
                                }
                            }
                            assert forall|a: int, b: int|
                                0 <= a < b < post.running().len() implies post.running()[a]
                                != post.running()[b] by {
                                if b == pre.running().len() && post.running()[a] == u@ {
                                    assert(pre.visited_log().contains(pre.running()[a]));
                                }
                            }
                        }
                        return Step::Fetch(u);
                    }
                },
            }
        }
    }

    /// Records the outcome of the fetch of `url`, which holds a slot: the
    /// slot is released, and for a fetched page its title and description are
    /// reported and its links not yet claimed are queued.
    pub fn finish(&mut self, url: &String, outcome: Result<String, FetchError>) -> (r: PageReport)
        requires
            old(self).wf(),
            old(self).running().contains(url@),
        ensures
            final(self).wf(),
            finished(*old(self), *final(self), url@, body_of(outcome)),
            r is Page <==> outcome is Ok,
            r matches PageReport::Page { url: u, title, description } ==> {
                &&& u@ == url@
                &&& opt_view(title) == first_of(matched_text(body_of(outcome)->Some_0, "title"@))
                &&& opt_view(description) == first_present(
                    matched_attr(body_of(outcome)->Some_0, description_selector(), "content"@),
                )
            },
            r matches PageReport::Failed { url: u, error: _ } ==> u@ == url@,
    {
        let mut k: usize = 0;
        while k < self.in_flight.len() && !(self.in_flight[k] == *url)
            invariant
                k <= self.in_flight@.len(),
                self.running().contains(url@),
                forall|j: int| 0 <= j < k ==> self.running()[j] != url@,
            decreases self.in_flight@.len() - k,
        {
            k = k + 1;
        }
        proof {
            if k == self.in_flight@.len() {
                let j = choose|j: int| 0 <= j < self.running().len() && self.running()[j] == url@;
                assert(false);
            }
        }
        let ghost pre = *old(self);
        let _released = self.in_flight.remove(k);
        proof {
            let post = *self;
            assert(post.running() =~= pre.running().remove(k as int));
            assert(pre.running()[k as int] == url@);
            assert forall|i: int| 0 <= i < post.running().len() implies post.visited_log().contains(
                #[trigger] post.running()[i],
            ) by {
                let i0 = if i < k { i } else { i + 1 };
                assert(post.running()[i] == pre.running()[i0]);
                assert(pre.visited_log().contains(pre.running()[i0]));
            }
        }
        match outcome {
            Ok(body) => {
                let meta = get_meta_and_title(body.as_str());
                let links = page_links(body.as_str(), self.base.as_str());
                let ghost mid = *self;
                let ghost lv = strs(links@);
                let mut i: usize = 0;
                while i < links.len()
                    invariant
                        i <= links@.len(),
                        lv == strs(links@),
                        self.visited_log() == mid.visited_log(),
                        self.running() == mid.running(),
                        self.capacity_view() == mid.capacity_view(),
                        self.base_view() == mid.base_view(),
                        self.queue_view() == mid.queue_view() + unclaimed(
                            lv.take(i as int),
                            mid.visited_log(),
                        ),
                    decreases links@.len() - i,
                {
                    proof {
                        reveal(Seq::filter);
                        assert(lv.take(i + 1).drop_last() =~= lv.take(i as int));
                    }
                    if !self.is_visited(&links[i]) {
                        self.push(links[i].clone());
                        proof {
                            assert(self.queue_view() =~= mid.queue_view() + unclaimed(
                                lv.take(i + 1),
                                mid.visited_log(),
                            ));
                        }
                    }
                    i = i + 1;
                }
                proof {
                    assert(lv.take(links@.len() as int) =~= lv);
                }
                PageReport::Page { url: url.clone(), title: meta.0, description: meta.1 }
            },
            Err(e) => PageReport::Failed { url: url.clone(), error: e },
        }
    }

    /// The number of URLs waiting in the queue.
    pub fn queue_len(&self) -> (r: usize)
        ensures
            r == self.queue_view().len(),
    {
        self.queue.len()
    }

    /// The number of fetches running.
    pub fn in_flight_count(&self) -> (r: usize)
        ensures
            r == self.running().len(),
    {
        self.in_flight.len()
    }

    /// The claimed URLs, in the order of the claims.
    pub fn visited(&self) -> (r: Vec<String>)
        ensures
            strs(r@) == self.visited_log(),
    {
        self.visited.clone()
    }
}

} // verus!

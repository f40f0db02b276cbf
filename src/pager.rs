//! The paginated retriever as a state machine: it decides which page to
//! fetch, takes each page's response, and hands out the kept records one at a
//! time. Whoever drives it performs the HTTP exchange that a `Fetch` asks for.
use vstd::prelude::*;
use crate::cursor::{find_next_page, next_cursor};
use crate::repo::Repo;

verus! {

/// What a response carried, as the driver saw it.
#[derive(Debug)]
pub struct PageResponse {
    pub status: u16,
    pub body: String,
    /// The value of the `link` header, if there was one readable as text.
    pub link: Option<String>,
    /// The records decoded from the body, or `None` if the body did not
    /// decode as a list of repositories.
    pub repos: Option<Vec<Repo>>,
}

/// A fatal failure of a page fetch; the listing ends with it.
#[derive(Debug)]
pub enum FetchError {
    /// The response status was not 200.
    Status { status: u16, body: String },
    /// The body did not decode as a list of repositories.
    Decode,
}

/// What the driver is to do next.
#[derive(Debug)]
pub enum Step {
    /// Hand this record to the consumer.
    Record(Repo),
    /// Request this page and pass its response to `accept_page`.
    Fetch(u32),
    /// The listing is complete.
    Finished,
}

/// Whether a record belongs in the output.
pub open spec fn kept(r: Repo, include_archived: bool) -> bool {
    include_archived || !r.archived
}

/// The records of one page that belong in the output, in page order.
pub open spec fn kept_records(s: Seq<Repo>, include_archived: bool) -> Seq<Repo>
    decreases s.len(),
{
    if s.len() == 0 {
        Seq::empty()
    } else {
        let rest = kept_records(s.drop_first(), include_archived);
        if kept(s[0], include_archived) {
            seq![s[0]] + rest
        } else {
            rest
        }
    }
}

/// The pages' records one after another.
pub open spec fn concat_pages(pages: Seq<Seq<Repo>>) -> Seq<Repo>
    decreases pages.len(),
{
    if pages.len() == 0 {
        Seq::empty()
    } else {
        concat_pages(pages.drop_last()) + pages.last()
    }
}

/// The output of a listing whose pages held these records.
pub open spec fn listing(pages: Seq<Seq<Repo>>, include_archived: bool) -> Seq<Repo>
    decreases pages.len(),
{
    if pages.len() == 0 {
        Seq::empty()
    } else {
        listing(pages.drop_last(), include_archived) + kept_records(pages.last(), include_archived)
    }
}

/// The text of an optional header value.
pub open spec fn text_of(o: Option<String>) -> Option<Seq<char>> {
    match o {
        Some(s) => Some(s@),
        None => None,
    }
}

/// The retriever of one listing. Its cursor starts at page 1; after each
/// page it is the page that the response's `link` header names as next.
pub struct RepoPager {
    include_archived: bool,
    next_page: Option<u32>,
    awaiting: Option<u32>,
    buffer: Vec<Repo>,
    fetched: Ghost<Seq<u32>>,
    links: Ghost<Seq<Option<Seq<char>>>>,
    received: Ghost<Seq<Seq<Repo>>>,
    emitted: Ghost<Seq<Repo>>,
}

impl RepoPager {
    pub closed spec fn includes_archived(&self) -> bool {
        self.include_archived
    }

    /// The page to fetch once the buffered records are handed out.
    pub closed spec fn cursor(&self) -> Option<u32> {
        self.next_page
    }

    /// The page whose response is awaited.
    pub closed spec fn awaiting_page(&self) -> Option<u32> {
        self.awaiting
    }

    /// Kept records of the last page, not yet handed out.
    pub closed spec fn pending(&self) -> Seq<Repo> {
        self.buffer@
    }

    /// The pages requested so far, in order.
    pub closed spec fn fetched(&self) -> Seq<u32> {
        self.fetched@
    }

    /// The `link` header of each accepted page, in order.
    pub closed spec fn links(&self) -> Seq<Option<Seq<char>>> {
        self.links@
    }

    /// The records of each accepted page, in order.
    pub closed spec fn received(&self) -> Seq<Seq<Repo>> {
        self.received@
    }

    /// The records handed out so far, in order.
    pub closed spec fn emitted(&self) -> Seq<Repo> {
        self.emitted@
    }

    pub closed spec fn wf(&self) -> bool {
        &&& self.received@.len() == self.links@.len()
        &&& self.links@.len() <= self.fetched@.len() <= self.links@.len() + 1
        &&& self.emitted@ + self.buffer@ == listing(self.received@, self.include_archived)
        &&& self.fetched@.len() > 0 ==> self.fetched@[0] == 1
        &&& forall|i: int|
            0 < i < self.fetched@.len() ==> next_cursor(#[trigger] self.links@[i - 1]) == Some(
                self.fetched@[i],
            )
        &&& self.awaiting is Some ==> {
            &&& self.next_page is None
            &&& self.buffer@.len() == 0
            &&& self.fetched@.len() == self.links@.len() + 1
            &&& self.fetched@.last() == self.awaiting->0
        }
        &&& self.next_page is Some ==> {
            &&& self.fetched@.len() == self.links@.len()
            &&& self.next_page == if self.links@.len() == 0 {
                Some(1u32)
            } else {
                next_cursor(self.links@.last())
            }
        }
    }

    /// A retriever that has fetched nothing; its cursor is page 1.
    pub fn new(include_archived: bool) -> (r: RepoPager)
        ensures
            r.wf(),
            r.includes_archived() == include_archived,
            r.cursor() == Some(1u32),
            r.awaiting_page() is None,
            r.pending().len() == 0,
            r.fetched().len() == 0,
            r.received().len() == 0,
            r.emitted().len() == 0,
    {
        RepoPager {
            include_archived,
            next_page: Some(1),
            awaiting: None,
            buffer: Vec::new(),
            fetched: Ghost(Seq::empty()),
            links: Ghost(Seq::empty()),
            received: Ghost(Seq::empty()),
            emitted: Ghost(Seq::empty()),
        }
    }

    /// The page whose response is awaited, if any.
    pub fn awaiting(&self) -> (r: Option<u32>)
        ensures
            r == self.awaiting_page(),
    {
        self.awaiting
    }

    /// Advances the listing: hands out the next buffered record; else asks
    /// for the page under the cursor; else reports the end. A page is asked
    /// for only once every record of the previous one has been handed out.
    pub fn step(&mut self) -> (r: Step)
        requires
            old(self).wf(),
            old(self).awaiting_page() is None,
        ensures
            final(self).wf(),
            final(self).includes_archived() == old(self).includes_archived(),
            final(self).links() == old(self).links(),
            final(self).received() == old(self).received(),
            old(self).pending().len() > 0 ==> {
                &&& r == Step::Record(old(self).pending()[0])
                &&& final(self).pending() == old(self).pending().drop_first()
                &&& final(self).emitted() == old(self).emitted().push(old(self).pending()[0])
                &&& final(self).cursor() == old(self).cursor()
                &&& final(self).awaiting_page() is None
                &&& final(self).fetched() == old(self).fetched()
            },
            old(self).pending().len() == 0 && old(self).cursor() is Some ==> {
                &&& r == Step::Fetch(old(self).cursor()->0)
                &&& final(self).awaiting_page() == old(self).cursor()
                &&& final(self).cursor() is None
                &&& final(self).pending().len() == 0
                &&& final(self).emitted() == old(self).emitted()
                &&& final(self).fetched() == old(self).fetched().push(old(self).cursor()->0)
            },
            old(self).pending().len() == 0 && old(self).cursor() is None ==> {
                &&& r is Finished
                &&& *final(self) == *old(self)
            },
    {
        if self.buffer.len() > 0 {
            let ghost before = self.buffer@;
            let r = self.buffer.remove(0);
            proof {
                self.emitted@ = self.emitted@.push(r);
                assert(self.buffer@ =~= before.drop_first());
                assert(self.emitted@ + self.buffer@ =~= old(self).emitted@ + before);
            }
            Step::Record(r)
        } else {
            match self.next_page {
                Some(p) => {
                    self.next_page = None;
                    self.awaiting = Some(p);
                    proof {
                        self.fetched@ = self.fetched@.push(p);
                    }
                    Step::Fetch(p)
                },
                None => Step::Finished,
            }
        }
    }

    /// Takes the response to the awaited page. A status other than 200, or
    /// a body that did not decode, ends the listing with an error. Otherwise
    /// the page's kept records are buffered in order and the cursor becomes
    /// the page that the `link` header names as next.
    pub fn accept_page(&mut self, resp: PageResponse) -> (r: Result<(), FetchError>)
        requires
            old(self).wf(),
            old(self).awaiting_page() is Some,
        ensures
            final(self).wf(),
            final(self).includes_archived() == old(self).includes_archived(),
            final(self).awaiting_page() is None,
            final(self).fetched() == old(self).fetched(),
            final(self).emitted() == old(self).emitted(),
            resp.status != 200 ==> r == Err::<(), FetchError>(
                FetchError::Status { status: resp.status, body: resp.body },
            ),
            resp.status == 200 && resp.repos is None ==> r == Err::<(), FetchError>(
                FetchError::Decode,
            ),
            r is Err ==> {
                &&& final(self).cursor() is None
                &&& final(self).pending().len() == 0
                &&& final(self).links() == old(self).links()
                &&& final(self).received() == old(self).received()
            },
            resp.status == 200 && resp.repos is Some ==> {
                &&& r is Ok
                &&& final(self).cursor() == next_cursor(text_of(resp.link))
                &&& final(self).pending() == kept_records(
                    resp.repos->0@,
                    old(self).includes_archived(),
                )
                &&& final(self).links() == old(self).links().push(text_of(resp.link))
                &&& final(self).received() == old(self).received().push(resp.repos->0@)
            },
    {
        self.awaiting = None;
        if resp.status != 200 {
            return Err(FetchError::Status { status: resp.status, body: resp.body });
        }
        let next = match &resp.link {
            Some(l) => find_next_page(Some(l.as_str())),
            None => find_next_page(None),
        };
        match resp.repos {
            None => Err(FetchError::Decode),
            Some(repos) => {
                let ghost page = repos@;
                let kept_page = keep_records(repos, self.include_archived);
                self.buffer = kept_page;
                self.next_page = next;
                proof {
                    let link = text_of(resp.link);
                    let old_links = self.links@;
                    let old_received = self.received@;
                    self.links@ = self.links@.push(link);
                    self.received@ = self.received@.push(page);
                    assert(self.received@.drop_last() =~= old_received);
                    assert(self.emitted@ + self.buffer@ =~= listing(
                        self.received@,
                        self.include_archived,
                    ));
                    assert forall|i: int| 0 < i < self.fetched@.len() implies next_cursor(
                        #[trigger] self.links@[i - 1],
                    ) == Some(self.fetched@[i]) by {
                        assert(self.links@[i - 1] == old_links[i - 1]);
                    }
                }
                Ok(())
            },
        }
    }
}

/// Whatever has been handed out, followed by what is buffered, is the
/// listing of the pages accepted so far: records keep their page order and
/// pages their fetch order, nothing is dropped but by the archived filter,
/// and nothing is repeated.
pub proof fn pager_output_is_listing(p: RepoPager)
    requires
        p.wf(),
    ensures
        p.emitted() + p.pending() == listing(p.received(), p.includes_archived()),
{
}

/// Once a page whose response had no `link` header, or no `rel="next"`
/// entry in it with a valid page number, has been accepted, no page is left to fetch:
/// the pager hands out that page's buffered records and then finishes.
pub proof fn last_page_ends_listing(p: RepoPager)
    requires
        p.wf(),
        p.awaiting_page() is None,
        p.links().len() > 0,
        next_cursor(p.links().last()) is None,
    ensures
        p.cursor() is None,
{
}

proof fn lemma_kept_records_contains(s: Seq<Repo>, include_archived: bool, r: Repo)
    ensures
        kept_records(s, include_archived).contains(r) <==> s.contains(r) && kept(
            r,
            include_archived,
        ),
    decreases s.len(),
{
    if s.len() > 0 {
        let rest = s.drop_first();
        lemma_kept_records_contains(rest, include_archived, r);
        let k = kept_records(rest, include_archived);
        if s.contains(r) && kept(r, include_archived) {
            let i = choose|i: int| 0 <= i < s.len() && s[i] == r;
            if i > 0 {
                assert(rest[i - 1] == r);
            }
            if kept(s[0], include_archived) {
                if i == 0 {
                    assert((seq![s[0]] + k)[0] == r);
                } else {
                    let j = choose|j: int| 0 <= j < k.len() && k[j] == r;
                    assert((seq![s[0]] + k)[j + 1] == r);
                }
            }
        }
        if kept_records(s, include_archived).contains(r) {
            let out = kept_records(s, include_archived);
            let j = choose|j: int| 0 <= j < out.len() && out[j] == r;
            if kept(s[0], include_archived) && j == 0 {
                assert(s[0] == r);
            } else if kept(s[0], include_archived) {
                assert(k[j - 1] == r);
                let i = choose|i: int| 0 <= i < rest.len() && rest[i] == r;
                assert(s[i + 1] == r);
            } else {
                assert(k[j] == r);
                let i = choose|i: int| 0 <= i < rest.len() && rest[i] == r;
                assert(s[i + 1] == r);
            }
        }
    }
}

/// A record appears in the listing exactly when some page holds it and it
/// passes the archived filter: archived records are absent unless archived
/// repositories are included, and every other record is present.
pub proof fn archived_records_filtered(pages: Seq<Seq<Repo>>, include_archived: bool, r: Repo)
    ensures
        listing(pages, include_archived).contains(r) <==> (exists|i: int|
            0 <= i < pages.len() && #[trigger] pages[i].contains(r)) && kept(r, include_archived),
    decreases pages.len(),
{
    if pages.len() > 0 {
        let front = pages.drop_last();
        let last = pages.last();
        archived_records_filtered(front, include_archived, r);
        lemma_kept_records_contains(last, include_archived, r);
        let a = listing(front, include_archived);
        let b = kept_records(last, include_archived);
        let all = listing(pages, include_archived);
        assert(all == a + b);
        if all.contains(r) {
            let j = choose|j: int| 0 <= j < all.len() && all[j] == r;
            if j < a.len() {
                assert(a[j] == r);
                let i = choose|i: int| 0 <= i < front.len() && #[trigger] front[i].contains(r);
                assert(pages[i] == front[i]);
            } else {
                assert(b[j - a.len()] == r);
                assert(pages[pages.len() - 1] == last);
            }
        }
        if (exists|i: int| 0 <= i < pages.len() && #[trigger] pages[i].contains(r)) && kept(
            r,
            include_archived,
        ) {
            let i = choose|i: int| 0 <= i < pages.len() && #[trigger] pages[i].contains(r);
            if i < pages.len() - 1 {
                assert(front[i] == pages[i]);
                let j = choose|j: int| 0 <= j < a.len() && a[j] == r;
                assert(all[j] == r);
            } else {
                let j = choose|j: int| 0 <= j < b.len() && b[j] == r;
                assert(all[a.len() + j] == r);
            }
        }
    }
}

proof fn lemma_kept_records_all(s: Seq<Repo>, include_archived: bool)
    requires
        forall|i: int| 0 <= i < s.len() ==> kept(#[trigger] s[i], include_archived),
    ensures
        kept_records(s, include_archived) == s,
    decreases s.len(),
{
    if s.len() > 0 {
        let rest = s.drop_first();
        assert forall|i: int| 0 <= i < rest.len() implies kept(#[trigger] rest[i], include_archived) by {
            assert(rest[i] == s[i + 1]);
        }
        lemma_kept_records_all(rest, include_archived);
        assert(kept(s[0], include_archived));
        assert(seq![s[0]] + rest =~= s);
    }
}

/// Where every record passes the filter (archived repositories are
/// included, or none is archived), the listing is the pages' records one
/// after another, in their order, with none dropped or repeated.
pub proof fn listing_keeps_order(pages: Seq<Seq<Repo>>, include_archived: bool)
    requires
        include_archived || forall|i: int, j: int|
            0 <= i < pages.len() && 0 <= j < pages[i].len() ==> !(#[trigger] pages[i][j]).archived,
    ensures
        listing(pages, include_archived) == concat_pages(pages),
    decreases pages.len(),
{
    if pages.len() > 0 {
        let front = pages.drop_last();
        let last = pages.last();
        assert forall|i: int, j: int| 0 <= i < front.len() && 0 <= j < front[i].len() implies
            include_archived || !(#[trigger] front[i][j]).archived by {
            assert(front[i] == pages[i]);
        }
        listing_keeps_order(front, include_archived);
        assert forall|j: int| 0 <= j < last.len() implies kept(#[trigger] last[j], include_archived) by {
            assert(pages[pages.len() - 1][j] == last[j]);
        }
        lemma_kept_records_all(last, include_archived);
    }
}

proof fn lemma_increasing(f: Seq<u32>, i: int, j: int)
    requires
        0 <= i < j < f.len(),
        forall|k: int| 0 <= k < f.len() - 1 ==> f[k] < #[trigger] f[k + 1],
    ensures
        f[i] < f[j],
    decreases j - i,
{
    if j > i + 1 {
        lemma_increasing(f, i, j - 1);
        let k = j - 1;
        assert(f[k] < f[k + 1]);
    } else {
        assert(f[i] < f[i + 1]);
    }
}

/// Pages are requested starting at page 1, each one the page that the
/// previous response named as next. So where every response names a later
/// page than its own, pages are requested in strictly increasing order and
/// none twice.
pub proof fn pages_fetched_in_increasing_order(p: RepoPager)
    requires
        p.wf(),
        forall|i: int|
            0 <= i < p.links().len() ==> match next_cursor(#[trigger] p.links()[i]) {
                Some(n) => n > p.fetched()[i],
                None => true,
            },
    ensures
        p.fetched().len() > 0 ==> p.fetched()[0] == 1,
        forall|i: int| 0 < i < p.fetched().len() ==> next_cursor(#[trigger] p.links()[i - 1]) == Some(p.fetched()[i]),
        forall|i: int, j: int| 0 <= i < j < p.fetched().len() ==> p.fetched()[i] < p.fetched()[j],
{
    let f = p.fetched();
    assert forall|k: int| 0 <= k < f.len() - 1 implies f[k] < #[trigger] f[k + 1] by {
        assert(next_cursor(p.links()[k + 1 - 1]) == Some(f[k + 1]));
    }
    assert forall|i: int, j: int| 0 <= i < j < f.len() implies f[i] < f[j] by {
        lemma_increasing(f, i, j);
    }
}

/// The records of a page that belong in the output, in page order.
pub fn keep_records(repos: Vec<Repo>, include_archived: bool) -> (r: Vec<Repo>)
    ensures
        r@ == kept_records(repos@, include_archived),
{
    let mut rest = repos;
    let mut out: Vec<Repo> = Vec::new();
    while rest.len() > 0
        invariant
            out@ + kept_records(rest@, include_archived) == kept_records(repos@, include_archived),
        decreases rest@.len(),
    {
        let ghost before = rest@;
        let r = rest.remove(0);
        assert(rest@ =~= before.drop_first());
        if include_archived || !r.archived {
            out.push(r);
        }
        assert(out@ + kept_records(rest@, include_archived) =~= kept_records(
            repos@,
            include_archived,
        ));
    }
    assert(kept_records(rest@, include_archived) =~= Seq::<Repo>::empty());
    assert(out@ =~= kept_records(repos@, include_archived));
    out
}

} // verus!

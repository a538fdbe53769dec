//! Cursor-based pagination: a restartable, finite producer of page requests
//! against a requested total count.
use vstd::prelude::*;

use crate::BuildError;

verus! {

/// The view of an optional owned string.
pub open spec fn opt_str_view(o: Option<String>) -> Option<Seq<char>> {
    match o {
        Some(s) => Some(s@),
        None => None,
    }
}

/// One page request: how many records to ask for, and the continuation token
/// to resume at (`None` for the first page).
pub struct PageRequest {
    pub limit: u64,
    pub cursor: Option<String>,
}

/// What a page response carries, as far as pagination is concerned: how many
/// records came, the continuation token, and whether more pages exist. Each
/// field is optional because a malformed response may lack it.
pub struct RawPage {
    pub record_count: Option<u64>,
    pub end_cursor: Option<String>,
    pub has_next_page: Option<bool>,
}

/// Tracks progress through a paged result set of a requested total size.
pub struct PageCursor {
    total: u64,
    remaining: u64,
    requested: u64,
    has_next: bool,
    token: Option<String>,
    failed: bool,
}

impl PageCursor {
    /// The total record count the cursor was asked for.
    pub closed spec fn spec_total(self) -> int {
        self.total as int
    }

    /// How many records may still be requested.
    pub closed spec fn spec_remaining(self) -> int {
        self.remaining as int
    }

    /// The sum of every limit granted so far.
    pub closed spec fn spec_requested(self) -> int {
        self.requested as int
    }

    /// Whether the data source has more pages and no failure was seen.
    pub closed spec fn spec_active(self) -> bool {
        self.has_next && !self.failed
    }

    /// Whether a malformed or failed response halted the cursor.
    pub closed spec fn spec_failed(self) -> bool {
        self.failed
    }

    /// The continuation token for the next request.
    pub closed spec fn spec_token(self) -> Option<Seq<char>> {
        opt_str_view(self.token)
    }

    /// The limit the next request carries: the outstanding target, capped at
    /// 100 records per page.
    pub open spec fn spec_next_limit(self) -> int {
        if self.spec_remaining() < 100 {
            self.spec_remaining()
        } else {
            100
        }
    }

    /// Granted limits and the outstanding target always add up to the total.
    pub closed spec fn wf(self) -> bool {
        self.requested + self.remaining == self.total
    }

    /// A fresh cursor aiming at `total` records in all.
    pub fn new(total: u64) -> (c: PageCursor)
        ensures
            c.wf(),
            c.spec_total() == total,
            c.spec_remaining() == total,
            c.spec_requested() == 0,
            c.spec_active(),
            !c.spec_failed(),
            c.spec_token() is None,
    {
        PageCursor {
            total,
            remaining: total,
            requested: 0,
            has_next: true,
            token: None,
            failed: false,
        }
    }

    /// The next page request, or `None` once the target is exhausted, the
    /// source reported no further page, or a failure halted the cursor. A
    /// target of zero yields no request at all.
    pub fn next_request(&self) -> (r: Option<PageRequest>)
        ensures
            r is Some <==> self.spec_active() && self.spec_remaining() > 0,
            r matches Some(req) ==> req.limit == self.spec_next_limit() && 1 <= req.limit <= 100
                && req.limit <= self.spec_remaining() && opt_str_view(req.cursor)
                == self.spec_token(),
    {
        if !self.has_next || self.failed || self.remaining == 0 {
            return None;
        }
        let limit: u64 = if self.remaining < 100 {
            self.remaining
        } else {
            100
        };
        let cursor: Option<String> = match &self.token {
            Some(s) => Some(s.clone()),
            None => None,
        };
        Some(PageRequest { limit, cursor })
    }

    /// Accounts for one fetched page: the granted limit is charged against
    /// the outstanding target and the continuation token is replaced. A
    /// missing response, record list or page flag halts the cursor with
    /// `FetchFailed`; what was already yielded stays yielded.
    pub fn advance(&mut self, page: Option<RawPage>) -> (r: Result<(), BuildError>)
        requires
            old(self).wf(),
        ensures
            final(self).spec_total() == old(self).spec_total(),
            final(self).wf(),
            r is Ok <==> (page matches Some(p) && p.record_count is Some
                && p.has_next_page is Some),
            r matches Err(e) ==> e is FetchFailed && final(self).spec_failed()
                && !final(self).spec_active() && final(self).spec_remaining() == old(
                self,
            ).spec_remaining() && final(self).spec_requested() == old(self).spec_requested(),
            r is Ok ==> {
                let p = page.unwrap();
                &&& final(self).spec_failed() == old(self).spec_failed()
                &&& final(self).spec_requested() == old(self).spec_requested() + old(
                    self,
                ).spec_next_limit()
                &&& final(self).spec_remaining() == old(self).spec_remaining() - old(
                    self,
                ).spec_next_limit()
                &&& final(self).spec_active() == (p.has_next_page == Some(true) && !old(
                    self,
                ).spec_failed())
                &&& final(self).spec_token() == opt_str_view(p.end_cursor)
            },
    {
        match page {
            Some(p) => match (p.record_count, p.has_next_page) {
                (Some(_), Some(more)) => {
                    let limit: u64 = if self.remaining < 100 {
                        self.remaining
                    } else {
                        100
                    };
                    self.remaining = self.remaining - limit;
                    self.requested = self.requested + limit;
                    self.has_next = more;
                    self.token = p.end_cursor;
                    Ok(())
                },
                _ => {
                    self.failed = true;
                    Err(BuildError::FetchFailed)
                },
            },
            None => {
                self.failed = true;
                Err(BuildError::FetchFailed)
            },
        }
    }
}

/// The pagination protocol never over-asks: a granted limit is never more
/// than 100 records nor more than the outstanding target, and the limits
/// granted over a cursor's whole run never add up to more than the total it
/// was asked for.
pub proof fn lemma_cursor_never_overfetches(c: PageCursor, r: Option<PageRequest>)
    requires
        c.wf(),
        r matches Some(req) ==> req.limit == c.spec_next_limit(),
    ensures
        r matches Some(req) ==> req.limit <= 100 && req.limit <= c.spec_remaining(),
        c.spec_requested() <= c.spec_total(),
{
}

} // verus!

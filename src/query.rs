//! The query engine: full-text and date predicates over the catalog, with
//! results in order of recency.

use vstd::prelude::*;
use crate::record::{opt_view, views, FileRecord, LibraryFile};
use crate::order::{keep, place, sorted_by};
use crate::store::{projection, LibraryIndex, Projection, ShadowEntry};
use crate::text::{
    chars_of, has_word_prefix, is_space, lower_of, lowercase, str_le, text_le, white_space, word_prefix_in,
};

verus! {

/// A search request. An absent `limit` means 50; a negative one means no cap.
#[derive(Clone, Debug)]
pub struct SearchParams {
    pub query: Option<String>,
    pub from_date: Option<String>,
    pub to_date: Option<String>,
    pub limit: Option<i32>,
}

pub struct SearchRequest {
    pub query: Option<Seq<char>>,
    pub from_date: Option<Seq<char>>,
    pub to_date: Option<Seq<char>>,
    pub limit: Option<i32>,
}

impl View for SearchParams {
    type V = SearchRequest;

    open spec fn view(&self) -> SearchRequest {
        SearchRequest {
            query: opt_view(self.query),
            from_date: opt_view(self.from_date),
            to_date: opt_view(self.to_date),
            limit: self.limit,
        }
    }
}

/// The cap on results when a request names none.
pub const DEFAULT_LIMIT: i32 = 50;

/// `q[s..e]` is a token of the query: a maximal run of characters that are
/// not white space.
pub open spec fn token_at(q: Seq<char>, s: int, e: int) -> bool {
    &&& 0 <= s < e <= q.len()
    &&& (s == 0 || white_space(q[s - 1]))
    &&& (e == q.len() || white_space(q[e]))
    &&& forall|k: int| s <= k < e ==> !white_space(#[trigger] q[k])
}

/// Some word of some projected field starts with `tok`.
pub open spec fn token_found(p: Projection, tok: Seq<char>) -> bool {
    ||| has_word_prefix(p.filename, tok)
    ||| has_word_prefix(p.title, tok)
    ||| has_word_prefix(p.summary, tok)
    ||| has_word_prefix(p.keywords, tok)
}

/// Every token of `q` is found, each as a word prefix, in some field of `p`.
pub open spec fn text_matches(q: Seq<char>, p: Projection) -> bool {
    forall|s: int, e: int| #[trigger] token_at(q, s, e) ==> token_found(p, q.subrange(s, e))
}

/// The query holds nothing but white space.
pub open spec fn is_blank(q: Seq<char>) -> bool {
    forall|k: int| 0 <= k < q.len() ==> white_space(#[trigger] q[k])
}

/// The request takes the full-text path: it has a query that is not blank.
pub open spec fn full_text(req: SearchRequest) -> bool {
    req.query is Some && !is_blank(req.query.unwrap())
}

/// `m` lies within the given bounds; a record without `modified` lies within
/// no bound.
pub open spec fn within_dates(
    m: Option<Seq<char>>,
    from: Option<Seq<char>>,
    to: Option<Seq<char>>,
) -> bool {
    &&& (from is Some ==> m is Some && text_le(from.unwrap(), m.unwrap()))
    &&& (to is Some ==> m is Some && text_le(m.unwrap(), to.unwrap()))
}

/// The request selects the record.
pub open spec fn admits(req: SearchRequest, r: FileRecord) -> bool {
    &&& full_text(req) ==> text_matches(lower_of(req.query.unwrap()), projection(r))
    &&& within_dates(r.modified, req.from_date, req.to_date)
}

pub open spec fn effective_limit(req: SearchRequest) -> i32 {
    match req.limit {
        Some(l) => l,
        None => DEFAULT_LIMIT,
    }
}

/// The recency key: `last_opened` when `by_opened`, else `modified`.
pub open spec fn key(r: FileRecord, by_opened: bool) -> Option<Seq<char>> {
    if by_opened {
        r.last_opened
    } else {
        r.modified
    }
}

/// `a <= b` for keys; an absent key is below every present one.
pub open spec fn key_le(a: Option<Seq<char>>, b: Option<Seq<char>>) -> bool {
    match (a, b) {
        (None, _) => true,
        (Some(_), None) => false,
        (Some(x), Some(y)) => text_le(x, y),
    }
}

/// `x` is strictly more recent than `y`.
pub open spec fn more_recent(x: FileRecord, y: FileRecord, by_opened: bool) -> bool {
    !key_le(key(x, by_opened), key(y, by_opened))
}

/// The order of recency, as a relation for sorting.
pub open spec fn recency(by_opened: bool) -> spec_fn(FileRecord, FileRecord) -> bool {
    |x: FileRecord, y: FileRecord| more_recent(x, y, by_opened)
}

/// `s` ordered most recent first; records with equal keys keep their order.
pub open spec fn by_recency(s: Seq<FileRecord>, by_opened: bool) -> Seq<FileRecord> {
    sorted_by(s, recency(by_opened))
}

/// At most `limit` records of `s` from the front; all of them when `limit`
/// is negative.
pub open spec fn capped(s: Seq<FileRecord>, limit: i32) -> Seq<FileRecord> {
    if 0 <= limit && limit < s.len() {
        s.take(limit as int)
    } else {
        s
    }
}

/// The answer to a search request.
pub open spec fn search_result(rows: Seq<FileRecord>, req: SearchRequest) -> Seq<FileRecord> {
    capped(by_recency(keep(rows, |r: FileRecord| admits(req, r)), false), effective_limit(req))
}

/// The recently opened records, most recent first.
pub open spec fn recent_result(rows: Seq<FileRecord>, limit: i32) -> Seq<FileRecord> {
    capped(by_recency(keep(rows, |r: FileRecord| r.last_opened is Some), true), limit)
}

proof fn lemma_token_start(q: Seq<char>, start: int, s: int, e: int)
    requires
        token_at(q, s, e),
        0 <= start < e,
        start == 0 || white_space(q[start - 1]),
        forall|k: int| start <= k < e ==> !white_space(#[trigger] q[k]),
    ensures
        s == start,
{
    if s < start {
        assert(!white_space(q[start - 1]));
    } else if s > start {
        assert(!white_space(q[s - 1]));
    }
}

fn token_found_exec(entry: &ShadowEntry, q: &Vec<char>, s: usize, e: usize) -> (r: bool)
    requires
        s <= e <= q@.len(),
    ensures
        r == token_found(entry.projection(), q@.subrange(s as int, e as int)),
{
    word_prefix_in(&entry.filename, q, s, e) || word_prefix_in(&entry.title, q, s, e)
        || word_prefix_in(&entry.summary, q, s, e) || word_prefix_in(&entry.keywords, q, s, e)
}

/// Whether every token of `q` is found in `entry`.
fn entry_matches(q: &Vec<char>, entry: &ShadowEntry) -> (r: bool)
    ensures
        r == text_matches(q@, entry.projection()),
{
    let ghost p = entry.projection();
    let n = q.len();
    let mut i: usize = 0;
    let mut start: usize = 0;
    let mut in_run = false;
    while i < n
        invariant
            n == q@.len(),
            p == entry.projection(),
            i <= n,
            start <= i,
            in_run ==> start < i && (start == 0 || white_space(q@[start - 1])) && forall|k: int|
                start <= k < i ==> !white_space(#[trigger] q@[k]),
            !in_run ==> (i == 0 || white_space(q@[i - 1])),
            forall|s: int, e: int| #[trigger] token_at(q@, s, e) && e < i ==> token_found(p, q@.subrange(s, e)),
        decreases n - i,
    {
        let c = q[i];
        if is_space(c) {
            if in_run {
                if !token_found_exec(entry, q, start, i) {
                    assert(token_at(q@, start as int, i as int));
                    return false;
                }
            }
            proof {
                assert forall|s: int, e: int| #[trigger] token_at(q@, s, e) && e < i + 1 implies token_found(
                    p,
                    q@.subrange(s, e),
                ) by {
                    if e == i {
                        if in_run {
                            lemma_token_start(q@, start as int, s, e);
                        } else {
                            assert(!white_space(q@[i - 1]));
                        }
                    }
                }
            }
            in_run = false;
        } else {
            if !in_run {
                start = i;
                in_run = true;
            }
            proof {
                assert forall|s: int, e: int| #[trigger] token_at(q@, s, e) && e < i + 1 implies token_found(
                    p,
                    q@.subrange(s, e),
                ) by {
                    if e == i {
                        assert(white_space(q@[e]));
                    }
                }
            }
        }
        i = i + 1;
    }
    if in_run {
        if !token_found_exec(entry, q, start, n) {
            assert(token_at(q@, start as int, n as int));
            return false;
        }
        proof {
            assert forall|s: int, e: int| #[trigger] token_at(q@, s, e) implies token_found(
                p,
                q@.subrange(s, e),
            ) by {
                if e == n {
                    lemma_token_start(q@, start as int, s, e);
                }
            }
        }
    } else {
        assert forall|s: int, e: int| #[trigger] token_at(q@, s, e) implies token_found(
            p,
            q@.subrange(s, e),
        ) by {
            if e == n {
                assert(!white_space(q@[n - 1]));
            }
        }
    }
    true
}

fn is_blank_exec(q: &Vec<char>) -> (r: bool)
    ensures
        r == is_blank(q@),
{
    let mut i: usize = 0;
    while i < q.len()
        invariant
            i <= q@.len(),
            forall|k: int| 0 <= k < i ==> white_space(#[trigger] q@[k]),
        decreases q@.len() - i,
    {
        if !is_space(q[i]) {
            return false;
        }
        i = i + 1;
    }
    true
}

fn within_dates_exec(m: &Option<String>, from: &Option<String>, to: &Option<String>) -> (r: bool)
    ensures
        r == within_dates(opt_view(*m), opt_view(*from), opt_view(*to)),
{
    let lower = match from {
        Some(f) => match m {
            Some(v) => str_le(f.as_str(), v.as_str()),
            None => false,
        },
        None => true,
    };
    let upper = match to {
        Some(t) => match m {
            Some(v) => str_le(v.as_str(), t.as_str()),
            None => false,
        },
        None => true,
    };
    lower && upper
}

fn key_le_exec(a: &Option<String>, b: &Option<String>) -> (r: bool)
    ensures
        r == key_le(opt_view(*a), opt_view(*b)),
{
    match (a, b) {
        (None, _) => true,
        (Some(_), None) => false,
        (Some(x), Some(y)) => str_le(x.as_str(), y.as_str()),
    }
}

fn key_exec(r: &LibraryFile, by_opened: bool) -> (k: &Option<String>)
    ensures
        opt_view(*k) == key(r@, by_opened),
{
    if by_opened {
        &r.last_opened
    } else {
        &r.modified
    }
}

impl LibraryIndex {
    /// The rows flagged in `mask`, most recent first, capped at `limit`.
    fn rank(
        &self,
        mask: &Vec<bool>,
        by_opened: bool,
        limit: i32,
        Ghost(pred): Ghost<spec_fn(FileRecord) -> bool>,
    ) -> (r: Vec<LibraryFile>)
        requires
            mask@.len() == self@.len(),
            forall|k: int| 0 <= k < self@.len() ==> mask@[k] == pred(#[trigger] self@[k]),
        ensures
            views(r@) == capped(by_recency(keep(self@, pred), by_opened), limit),
    {
        let n = self.len();
        let mut res: Vec<LibraryFile> = Vec::new();
        let mut i: usize = 0;
        while i < n
            invariant
                n == self@.len(),
                mask@.len() == n,
                forall|k: int| 0 <= k < self@.len() ==> mask@[k] == pred(#[trigger] self@[k]),
                i <= n,
                views(res@) == by_recency(keep(self@.take(i as int), pred), by_opened),
            decreases n - i,
        {
            let ghost rows_i = self@.take(i as int);
            let ghost rows_next = self@.take(i + 1);
            proof {
                assert(rows_next.drop_last() =~= rows_i);
                assert(rows_next.last() == self@[i as int]);
            }
            if mask[i] {
                let x = self.row(i);
                let ghost sorted = views(res@);
                let ghost ks = keep(rows_i, pred);
                proof {
                    assert(keep(rows_next, pred) == ks.push(x@));
                    assert(ks.push(x@).drop_last() =~= ks);
                }
                let kx = key_exec(x, by_opened);
                let mut j: usize = 0;
                let mut stop = false;
                assert(sorted.skip(0) =~= sorted);
                while !stop && j < res.len()
                    invariant
                        j <= res@.len(),
                        sorted == views(res@),
                        opt_view(*kx) == key(x@, by_opened),
                        place(sorted, x@, recency(by_opened)) == j + place(
                            sorted.skip(j as int),
                            x@,
                            recency(by_opened),
                        ),
                        stop ==> j < res@.len() && more_recent(x@, sorted[j as int], by_opened),
                    decreases res@.len() - j + (if stop { 0int } else { 1int }),
                {
                    let ghost rest = sorted.skip(j as int);
                    assert(rest[0] == res@[j as int]@);
                    if !key_le_exec(kx, key_exec(&res[j], by_opened)) {
                        stop = true;
                    } else {
                        assert(rest.drop_first() =~= sorted.skip(j + 1));
                        j = j + 1;
                    }
                }
                proof {
                    let rest = sorted.skip(j as int);
                    if stop {
                        assert(rest[0] == sorted[j as int]);
                    } else {
                        assert(rest.len() == 0);
                    }
                    assert(place(sorted, x@, recency(by_opened)) == j);
                    let s = ks.push(x@);
                    assert(s.last() == x@);
                    assert(by_recency(s, by_opened) == sorted.insert(j as int, x@));
                }
                res.insert(j, x.duplicate());
                assert(views(res@) =~= sorted.insert(j as int, x@));
            } else {
                assert(keep(rows_next, pred) == keep(rows_i, pred));
            }
            i = i + 1;
        }
        assert(self@.take(n as int) =~= self@);
        if 0 <= limit && (limit as usize) < res.len() {
            res.truncate(limit as usize);
            assert(views(res@) =~= capped(by_recency(keep(self@, pred), by_opened), limit));
        }
        res
    }

    /// Answers a search request: the records that it admits, most recent
    /// `modified` first, capped at its limit. A query that is absent or blank
    /// selects by date alone; otherwise every token of the query, in lower
    /// case, must start a word of the record's file name, title, summary or
    /// keywords, which the shadow index holds in lower case.
    pub fn search_files(&self, params: &SearchParams) -> (r: Vec<LibraryFile>)
        requires
            self.wf(),
        ensures
            views(r@) == search_result(self@, params@),
    {
        let ghost req = params@;
        let terms: Option<Vec<char>> = match &params.query {
            Some(q) => {
                if is_blank_exec(&chars_of(q.as_str())) {
                    None
                } else {
                    Some(chars_of(lowercase(q.as_str()).as_str()))
                }
            },
            None => None,
        };
        let n = self.len();
        let mut mask: Vec<bool> = Vec::new();
        let mut i: usize = 0;
        while i < n
            invariant
                self.wf(),
                n == self@.len(),
                req == params@,
                terms is Some <==> full_text(req),
                terms matches Some(t) ==> t@ == lower_of(req.query.unwrap()),
                i <= n,
                mask@.len() == i,
                forall|k: int| 0 <= k < i ==> mask@[k] == admits(req, #[trigger] self@[k]),
            decreases n - i,
        {
            let text_ok = match &terms {
                Some(t) => entry_matches(t, self.shadow(i)),
                None => true,
            };
            let dates_ok = within_dates_exec(&self.row(i).modified, &params.from_date, &params.to_date);
            mask.push(text_ok && dates_ok);
            i = i + 1;
        }
        let limit = match params.limit {
            Some(l) => l,
            None => DEFAULT_LIMIT,
        };
        self.rank(&mask, false, limit, Ghost(|r: FileRecord| admits(req, r)))
    }

    /// The records that have a `last_opened`, most recently opened first, at
    /// most `limit` of them (all of them when `limit` is negative).
    pub fn get_recent_files(&self, limit: i32) -> (r: Vec<LibraryFile>)
        requires
            self.wf(),
        ensures
            views(r@) == recent_result(self@, limit),
    {
        let n = self.len();
        let mut mask: Vec<bool> = Vec::new();
        let mut i: usize = 0;
        while i < n
            invariant
                n == self@.len(),
                i <= n,
                mask@.len() == i,
                forall|k: int| 0 <= k < i ==> mask@[k] == (#[trigger] self@[k]).last_opened is Some,
            decreases n - i,
        {
            mask.push(self.row(i).last_opened.is_some());
            i = i + 1;
        }
        self.rank(&mask, true, limit, Ghost(|r: FileRecord| r.last_opened is Some))
    }
}

} // verus!

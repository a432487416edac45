//! Rules for talking to the Braze REST API: retries, pagination, and what
//! answers mean. Sending the requests happens elsewhere.
//!
//! There is no client-side rate limiter: Braze alone knows its quotas, so a
//! refusal is waited out and the request repeated, within a budget.

pub mod catalog;
pub mod content_block;
pub mod custom_attribute;
pub mod email_template;
pub mod error;

use crate::braze::error::{quoted, quoted_text, BrazeApiError};
use crate::endpoint::{endpoint_of, same_origin, url_with_path, Endpoint, EndpointView};
use crate::order::{contains_str, names_of, views, Named};
use crate::text::{
    contains_text, decimal, decimal_text, eq_ignore_case, is_shown, lemma_shown_between, lower,
    lower_text, number_value, occurs_in, owned, parse_number, split, split_once, split_once_text,
    split_text, strip_end, strip_end_text, strip_start, strip_start_text, strs, trim, trim_text,
    words, words_text, Strip,
};
use vstd::prelude::*;

verus! {

/// Total time to wait for one request: 60 seconds.
pub const RETRY_BUDGET_MS: u64 = 60_000;

/// Most attempts for one request. Ends the case of a server that asks for a
/// wait of no time for ever.
pub const RETRY_MAX_ATTEMPTS: u32 = 100;

/// The longest first wait where the server names none.
pub const BACKOFF_BASE_MS: u64 = 500;

/// The longest wait where the server names none.
pub const BACKOFF_CAP_MS: u64 = 10_000;

/// The longest wait before the next attempt where the server names none: it
/// doubles with every attempt up to a cap.
pub open spec fn backoff_limit(attempt: u32) -> nat {
    if attempt >= 5 {
        BACKOFF_CAP_MS as nat
    } else {
        (BACKOFF_BASE_MS * vstd::arithmetic::power2::pow2(attempt as nat)) as nat
    }
}

fn backoff_limit_ms(attempt: u32) -> (r: u64)
    ensures
        r == backoff_limit(attempt),
{
    proof {
        vstd::arithmetic::power2::lemma2_to64();
    }
    if attempt == 0 {
        500
    } else if attempt == 1 {
        1000
    } else if attempt == 2 {
        2000
    } else if attempt == 3 {
        4000
    } else if attempt == 4 {
        8000
    } else {
        10_000
    }
}

/// `fastrand::u64` on the range from zero to the limit, both included: some
/// number in the range. Which one is left to chance.
#[verifier::external_body]
fn random_up_to(limit: u64) -> (r: u64)
    ensures
        r <= limit,
{
    fastrand::u64(0..=limit)
}

/// The Unix time `chrono` reads out of a date as in e-mail and HTTP headers.
pub uninterp spec fn header_date_secs(text: Seq<char>) -> Option<i64>;

/// `chrono::DateTime::parse_from_rfc2822` and `timestamp`: the Unix time of
/// the date, `None` where the text is no such date.
#[verifier::external_body]
fn parse_header_date(text: &str) -> (r: Option<i64>)
    ensures
        r == header_date_secs(text@),
{
    chrono::DateTime::parse_from_rfc2822(text).ok().map(|d| d.timestamp())
}

/// How many seconds from now a date lies; none where it is past.
pub open spec fn secs_until(date: i64, now: i64) -> u64 {
    if date <= now {
        0
    } else if date - now > i64::MAX {
        i64::MAX as u64
    } else {
        (date - now) as u64
    }
}

/// What a `Retry-After` header asks for: a number of seconds, or a date. The
/// date the header stands for is given.
pub open spec fn retry_after(raw: Option<Seq<char>>, date: Option<i64>, now: i64) -> Option<u64> {
    match raw {
        None => None,
        Some(text) => match number_value(text) {
            Some(secs) => Some(secs),
            None => match date {
                Some(d) => Some(secs_until(d, now)),
                None => None,
            },
        },
    }
}

/// What a date means for the wait.
pub fn secs_until_date(date: i64, now: i64) -> (r: u64)
    ensures
        r == secs_until(date, now),
{
    if date <= now {
        0
    } else {
        match date.checked_sub(now) {
            Some(d) => d as u64,
            None => i64::MAX as u64,
        }
    }
}

/// The model of an optional text.
pub open spec fn opt_str(o: Option<&str>) -> Option<Seq<char>> {
    match o {
        Some(s) => Some(s@),
        None => None,
    }
}

/// Reads a `Retry-After` header: a number of seconds or a date. A date that
/// is past asks for no wait. `None` where there is no header or it is
/// neither.
pub fn parse_retry_after(raw: Option<&str>, now: i64) -> (r: Option<u64>)
    ensures
        r == retry_after(
            opt_str(raw),
            match raw {
                Some(t) => header_date_secs(t@),
                None => None,
            },
            now,
        ),
{
    match raw {
        None => None,
        Some(text) => match parse_number(text) {
            Some(secs) => Some(secs),
            None => match parse_header_date(text) {
                Some(d) => Some(secs_until_date(d, now)),
                None => None,
            },
        },
    }
}

/// The wait before the next attempt, in milliseconds: what the server asks
/// for, else what was drawn; never more than what is left of the budget.
pub open spec fn wait_ms(asked: Option<u64>, drawn: u64, remaining: u64) -> nat {
    let wait = match asked {
        Some(secs) => secs as nat * 1000,
        None => drawn as nat,
    };
    if wait <= remaining {
        wait
    } else {
        remaining as nat
    }
}

/// The wait before the next attempt, given what was drawn.
pub fn backoff_wait(asked: Option<u64>, drawn: u64, remaining: u64) -> (r: u64)
    ensures
        r == wait_ms(asked, drawn, remaining),
{
    match asked {
        Some(secs) => match secs.checked_mul(1000) {
            Some(ms) => if ms <= remaining {
                ms
            } else {
                remaining
            },
            None => remaining,
        },
        None => if drawn <= remaining {
            drawn
        } else {
            remaining
        },
    }
}

/// The wait before the next attempt. Where the server asks for none it is
/// drawn at random.
pub fn compute_backoff(asked: Option<u64>, attempt: u32, remaining: u64) -> (r: u64)
    ensures
        asked is Some ==> r == wait_ms(asked, 0, remaining),
        asked is None ==> r <= backoff_limit(attempt),
        r <= remaining,
{
    let drawn: u64 = match asked {
        Some(_) => 0,
        None => random_up_to(backoff_limit_ms(attempt)),
    };
    backoff_wait(asked, drawn, remaining)
}

/// How often one request was refused and how long it has waited.
#[derive(Debug, Clone, Copy, PartialEq, Eq, Structural)]
pub struct RetryState {
    pub attempt: u32,
    pub elapsed_ms: u64,
}

impl RetryState {
    pub fn start() -> (r: RetryState)
        ensures
            r == (RetryState { attempt: 0, elapsed_ms: 0 }),
            r.wf(),
    {
        RetryState { attempt: 0, elapsed_ms: 0 }
    }

    /// Neither the attempts nor the waits have run over.
    pub open spec fn wf(self) -> bool {
        self.attempt <= RETRY_MAX_ATTEMPTS && self.elapsed_ms <= RETRY_BUDGET_MS
    }

    /// No further attempt is allowed.
    pub open spec fn exhausted(self) -> bool {
        self.attempt >= RETRY_MAX_ATTEMPTS || self.elapsed_ms >= RETRY_BUDGET_MS
    }

    /// What is left of the budget.
    pub fn remaining_ms(self) -> (r: u64)
        ensures
            r == if self.elapsed_ms >= RETRY_BUDGET_MS {
                0
            } else {
                RETRY_BUDGET_MS - self.elapsed_ms
            },
    {
        if self.elapsed_ms >= RETRY_BUDGET_MS {
            0
        } else {
            RETRY_BUDGET_MS - self.elapsed_ms
        }
    }

    /// The state after a wait and another attempt.
    pub fn after_wait(self, waited_ms: u64) -> (r: RetryState)
        requires
            self.wf(),
            !self.exhausted(),
            waited_ms <= RETRY_BUDGET_MS - self.elapsed_ms,
        ensures
            r.wf(),
            r.attempt == self.attempt + 1,
            r.elapsed_ms == self.elapsed_ms + waited_ms,
    {
        RetryState { attempt: self.attempt + 1, elapsed_ms: self.elapsed_ms + waited_ms }
    }
}

/// What to do after an answer.
#[derive(Debug, PartialEq)]
pub enum NextStep {
    /// The answer is good.
    Accept,
    /// Wait and send the request again.
    Retry,
    /// Give up.
    Fail(BrazeApiError),
}

/// What an answer with the given status means.
pub fn next_step(state: RetryState, status: u16, body: &str) -> (r: NextStep)
    ensures
        200 <= status < 300 ==> r is Accept,
        status == 429 ==> if state.exhausted() {
            r == NextStep::Fail(BrazeApiError::RateLimitExhausted)
        } else {
            r is Retry
        },
        status == 401 ==> r == NextStep::Fail(BrazeApiError::Unauthorized),
        !(200 <= status < 300) && status != 429 && status != 401 ==> (r matches NextStep::Fail(
            BrazeApiError::Http { status: s, body: b },
        ) && s == status && b@ == body@),
{
    if status >= 200 && status < 300 {
        NextStep::Accept
    } else if status == 429 {
        if state.attempt >= RETRY_MAX_ATTEMPTS || state.elapsed_ms >= RETRY_BUDGET_MS {
            NextStep::Fail(BrazeApiError::RateLimitExhausted)
        } else {
            NextStep::Retry
        }
    } else if status == 401 {
        NextStep::Fail(BrazeApiError::Unauthorized)
    } else {
        NextStep::Fail(BrazeApiError::Http { status, body: owned(body) })
    }
}

/// How long a run of waits took.
pub open spec fn total_wait(waits: Seq<u64>) -> nat
    decreases waits.len(),
{
    if waits.len() == 0 {
        0
    } else {
        total_wait(waits.drop_last()) + waits.last() as nat
    }
}

/// One request can be refused and repeated like this: before each wait a
/// further attempt was allowed, and no wait exceeds what was left of the
/// budget.
pub open spec fn possible_waits(waits: Seq<u64>) -> bool
    decreases waits.len(),
{
    waits.len() == 0 || {
        let before = waits.drop_last();
        &&& possible_waits(before)
        &&& before.len() < RETRY_MAX_ATTEMPTS
        &&& total_wait(before) < RETRY_BUDGET_MS
        &&& waits.last() <= RETRY_BUDGET_MS - total_wait(before)
    }
}

/// A request is not repeated without end: however a server answers, the
/// retries stay within the number of attempts, and the waits together within
/// the budget.
pub proof fn retries_are_bounded(waits: Seq<u64>)
    requires
        possible_waits(waits),
    ensures
        waits.len() <= RETRY_MAX_ATTEMPTS,
        total_wait(waits) <= RETRY_BUDGET_MS,
    decreases waits.len(),
{
    if waits.len() > 0 {
        retries_are_bounded(waits.drop_last());
    }
}

/// The parameter says that the link leads to the next page.
pub open spec fn is_next_param(p: Seq<char>) -> bool {
    match split_once(trim(p), '=') {
        None => false,
        Some((k, v)) => {
            &&& lower(trim(k)) == lower("rel"@)
            &&& names_next(rel_words(v))
        },
    }
}

/// One of the words is `next`, in whatever case.
pub open spec fn names_next(list: Seq<Seq<char>>) -> bool {
    exists|i: int| 0 <= i < list.len() && lower(#[trigger] list[i]) == lower("next"@)
}

/// One of the parameters says that the link leads to the next page.
pub open spec fn some_next_param(list: Seq<Seq<char>>) -> bool {
    exists|i: int| 0 <= i < list.len() && is_next_param(#[trigger] list[i])
}

/// The words of a `rel` parameter's value.
pub open spec fn rel_words(v: Seq<char>) -> Seq<Seq<char>> {
    words(
        strip_end(strip_start(trim(v), Strip::Only('"')), Strip::Only('"')),
        Strip::AsciiWhite,
    )
}

/// The URL of one link, where the link leads to the next page.
pub open spec fn next_url_of_link(part: Seq<char>) -> Option<Seq<char>> {
    match split_once(trim(part), ';') {
        None => None,
        Some((url, params)) => if some_next_param(split(params, ';')) {
            Some(strip_end(strip_start(trim(url), Strip::Only('<')), Strip::Only('>')))
        } else {
            None
        },
    }
}

/// The first link that leads to the next page.
pub open spec fn first_next(parts: Seq<Seq<char>>) -> Option<Seq<char>>
    decreases parts.len(),
{
    if parts.len() == 0 {
        None
    } else {
        match next_url_of_link(parts[0]) {
            Some(u) => Some(u),
            None => first_next(parts.drop_first()),
        }
    }
}

/// The first link that leads to the next page, over all `Link` headers in
/// order; links within a header are separated by commas.
pub open spec fn next_link(headers: Seq<Seq<char>>) -> Option<Seq<char>>
    decreases headers.len(),
{
    if headers.len() == 0 {
        None
    } else {
        match first_next(split(headers[0], ',')) {
            Some(u) => Some(u),
            None => next_link(headers.drop_first()),
        }
    }
}

fn has_next_param(p: &str) -> (r: bool)
    ensures
        r == is_next_param(p@),
{
    match split_once_text(trim_text(p).as_str(), '=') {
        None => false,
        Some((k, v)) => {
            if !eq_ignore_case(trim_text(k.as_str()).as_str(), "rel") {
                return false;
            }
            let value = trim_text(v.as_str());
            let bare = strip_end_text(
                strip_start_text(value.as_str(), Strip::Only('"')).as_str(),
                Strip::Only('"'),
            );
            let list = words_text(bare.as_str(), Strip::AsciiWhite);
            let mut i: usize = 0;
            assert(strs(list@) == rel_words(v@));
            while i < list.len()
                invariant
                    i <= list@.len(),
                    strs(list@) == rel_words(v@),
                    split_once(trim(p@), '=') == Some((k@, v@)),
                    lower(trim(k@)) == lower("rel"@),
                    forall|j: int|
                        0 <= j < i ==> lower(#[trigger] rel_words(v@)[j]) != lower("next"@),
                decreases list@.len() - i,
            {
                if eq_ignore_case(list[i].as_str(), "next") {
                    assert(rel_words(v@).len() == list@.len());
                    assert(lower(rel_words(v@)[i as int]) == lower("next"@));
                    assert(names_next(rel_words(v@)));
                    return true;
                }
                i = i + 1;
            }
            false
        },
    }
}

fn link_to_next(part: &str) -> (r: Option<String>)
    ensures
        crate::text::opt_text(r) == next_url_of_link(part@),
{
    match split_once_text(trim_text(part).as_str(), ';') {
        None => None,
        Some((url, params)) => {
            let list = split_text(params.as_str(), ';');
            let mut i: usize = 0;
            while i < list.len()
                invariant
                    i <= list@.len(),
                    split_once(trim(part@), ';') == Some((url@, params@)),
                    strs(list@) == split(params@, ';'),
                    forall|j: int|
                        0 <= j < i ==> !is_next_param(#[trigger] split(params@, ';')[j]),
                decreases list@.len() - i,
            {
                if has_next_param(list[i].as_str()) {
                    assert(split(params@, ';').len() == list@.len());
                    assert(is_next_param(split(params@, ';')[i as int]));
                    assert(some_next_param(split(params@, ';')));
                    let t = trim_text(url.as_str());
                    return Some(
                        strip_end_text(
                            strip_start_text(t.as_str(), Strip::Only('<')).as_str(),
                            Strip::Only('>'),
                        ),
                    );
                }
                i = i + 1;
            }
            None
        },
    }
}

/// The URL of the next page according to the `Link` headers.
pub fn parse_next_link(headers: &Vec<String>) -> (r: Option<String>)
    ensures
        crate::text::opt_text(r) == next_link(strs(headers@)),
{
    let ghost hs = strs(headers@);
    let mut i: usize = 0;
    assert(hs.skip(0) =~= hs);
    while i < headers.len()
        invariant
            i <= headers@.len(),
            hs == strs(headers@),
            next_link(hs) == next_link(hs.skip(i as int)),
        decreases headers@.len() - i,
    {
        let parts = split_text(headers[i].as_str(), ',');
        let ghost ps = strs(parts@);
        let mut k: usize = 0;
        proof {
            assert(hs.skip(i as int)[0] == headers@[i as int]@);
            assert(hs.skip(i as int).drop_first() =~= hs.skip(i + 1));
            assert(ps.skip(0) =~= ps);
        }
        while k < parts.len()
            invariant
                k <= parts@.len(),
                i < headers@.len(),
                hs == strs(headers@),
                next_link(hs) == next_link(hs.skip(i as int)),
                hs.skip(i as int)[0] == headers@[i as int]@,
                ps == strs(parts@),
                ps == split(headers@[i as int]@, ','),
                first_next(ps) == first_next(ps.skip(k as int)),
            decreases parts@.len() - k,
        {
            proof {
                assert(ps.skip(k as int)[0] == parts@[k as int]@);
                assert(ps.skip(k as int).drop_first() =~= ps.skip(k + 1));
            }
            if let Some(u) = link_to_next(parts[k].as_str()) {
                return Some(u);
            }
            k = k + 1;
        }
        i = i + 1;
    }
    None
}

/// What is said of a list that is, or may be, cut off.
pub open spec fn truncation(count: Option<usize>, returned: usize, limit: usize) -> Option<
    Seq<char>,
> {
    match count {
        Some(total) => if total > returned {
            Some(
                "got "@ + decimal(returned as nat) + " of "@ + decimal(total as nat)
                    + " results"@,
            )
        } else {
            None
        },
        None => if returned >= limit {
            Some(
                "got a full page of "@ + decimal(returned as nat)
                    + " result(s) with no total reported; cannot verify whether more exist"@,
            )
        } else {
            None
        },
    }
}

/// Refuses a list that is, or may be, cut off: one that reports more than it
/// returned, or a full page that reports no total.
pub fn check_pagination(
    count: Option<usize>,
    returned: usize,
    limit: usize,
    endpoint: &'static str,
) -> (r: Result<(), BrazeApiError>)
    ensures
        match r {
            Ok(_) => truncation(count, returned, limit) is None,
            Err(BrazeApiError::PaginationNotImplemented { endpoint: e, detail }) => e@
                == endpoint@ && truncation(count, returned, limit) == Some(detail@),
            Err(_) => false,
        },
{
    let detail = match count {
        Some(total) => {
            if total <= returned {
                return Ok(());
            }
            let mut out = owned("got ");
            out.push_str(decimal_text(returned as u64).as_str());
            out.push_str(" of ");
            out.push_str(decimal_text(total as u64).as_str());
            out.push_str(" results");
            out
        },
        None => {
            if returned < limit {
                return Ok(());
            }
            let mut out = owned("got a full page of ");
            out.push_str(decimal_text(returned as u64).as_str());
            out.push_str(" result(s) with no total reported; cannot verify whether more exist");
            out
        },
    };
    Err(BrazeApiError::PaginationNotImplemented { endpoint, detail })
}

/// The first name that occurred before.
pub open spec fn first_repeated(names: Seq<Seq<char>>) -> Option<Seq<char>>
    decreases names.len(),
{
    if names.len() == 0 {
        None
    } else {
        match first_repeated(names.drop_last()) {
            Some(n) => Some(n),
            None => if names.drop_last().contains(names.last()) {
                Some(names.last())
            } else {
                None
            },
        }
    }
}

/// Nothing is repeated exactly in lists without duplicates.
pub proof fn lemma_none_repeated(names: Seq<Seq<char>>)
    ensures
        first_repeated(names) is None <==> names.no_duplicates(),
    decreases names.len(),
{
    if names.len() > 0 {
        let p = names.drop_last();
        lemma_none_repeated(p);
        if first_repeated(names) is None {
            assert forall|i: int, j: int|
                0 <= i < names.len() && 0 <= j < names.len() && i != j implies names[i]
                != names[j] by {
                if i < p.len() && j < p.len() {
                    assert(p[i] != p[j]);
                } else if i < p.len() {
                    assert(p[i] == names[i]);
                    assert(p.contains(names[i]));
                } else {
                    assert(p[j] == names[j]);
                    assert(p.contains(names[j]));
                }
            }
        }
        if names.no_duplicates() {
            assert(p.no_duplicates()) by {
                assert forall|i: int, j: int| 0 <= i < p.len() && 0 <= j < p.len() && i
                    != j implies p[i] != p[j] by {
                    assert(names[i] != names[j]);
                }
            }
            if p.contains(names.last()) {
                let k = choose|k: int| 0 <= k < p.len() && p[k] == names.last();
                assert(names[k] == names[names.len() - 1]);
            }
        }
    }
}

/// Refuses a list in which a name is repeated.
pub fn check_duplicate_names<T: Named>(items: &Vec<T>, endpoint: &'static str) -> (r: Result<
    (),
    BrazeApiError,
>)
    ensures
        match r {
            Ok(_) => first_repeated(names_of::<T>(views(items@))) is None,
            Err(BrazeApiError::DuplicateNameInListResponse { endpoint: e, name }) => e@
                == endpoint@ && first_repeated(names_of::<T>(views(items@))) == Some(name@),
            Err(_) => false,
        },
{
    let ghost ns = names_of::<T>(views(items@));
    let mut seen: Vec<String> = Vec::new();
    let mut i: usize = 0;
    assert(strs(seen@) =~= ns.take(0));
    while i < items.len()
        invariant
            i <= items@.len(),
            ns == names_of::<T>(views(items@)),
            strs(seen@) == ns.take(i as int),
            first_repeated(ns.take(i as int)) is None,
        decreases items@.len() - i,
    {
        let name = items[i].name_ref();
        proof {
            assert(ns[i as int] == name@);
            assert(ns.take(i + 1).drop_last() =~= ns.take(i as int));
            assert(ns.take(i + 1).last() == name@);
        }
        if contains_str(&seen, name.as_str()) {
            proof {
                lemma_repeated_prefix(ns, i + 1);
            }
            return Err(
                BrazeApiError::DuplicateNameInListResponse { endpoint, name: name.clone() },
            );
        }
        let ghost before = seen@;
        seen.push(name.clone());
        assert(strs(seen@) =~= strs(before).push(name@));
        assert(strs(seen@) =~= ns.take(i + 1));
        i = i + 1;
    }
    assert(ns.take(i as int) =~= ns);
    Ok(())
}

/// What is repeated in the front of a list is what is repeated first.
proof fn lemma_repeated_prefix(names: Seq<Seq<char>>, i: int)
    requires
        0 <= i <= names.len(),
        first_repeated(names.take(i)) is Some,
    ensures
        first_repeated(names) == first_repeated(names.take(i)),
    decreases names.len(),
{
    if i == names.len() {
        assert(names.take(i) =~= names);
    } else {
        assert(names.drop_last().take(i) =~= names.take(i));
        lemma_repeated_prefix(names.drop_last(), i);
    }
}

/// What the message of an answer with details says.
#[derive(Debug, PartialEq, Eq)]
pub enum InfoMessageClass {
    Success,
    NotFound,
    Unexpected(String),
}

/// The message says that there is no such resource.
pub open spec fn says_not_found(message: Seq<char>, resource_phrase: Seq<char>) -> bool {
    let m = lower(trim(message));
    occurs_in("not found"@, m) || occurs_in(resource_phrase, m) || occurs_in("does not exist"@, m)
}

/// The message says that all is well.
pub open spec fn says_success(message: Seq<char>) -> bool {
    lower(trim(message)) == lower("success"@)
}

/// Reads the message of an answer with details. Braze answers with success
/// even where a resource does not exist, and says so only in the message. A
/// message that is not recognized is passed on, never taken for absence.
pub fn classify_info_message(message: Option<&str>, resource_phrase: &str) -> (r: InfoMessageClass)
    ensures
        match message {
            None => r is Success,
            Some(m) => if says_success(m@) {
                r is Success
            } else if says_not_found(m@, resource_phrase@) {
                r is NotFound
            } else {
                r matches InfoMessageClass::Unexpected(u) && u@ == m@
            },
        },
{
    match message {
        None => InfoMessageClass::Success,
        Some(raw) => {
            let trimmed = trim_text(raw);
            if eq_ignore_case(trimmed.as_str(), "success") {
                return InfoMessageClass::Success;
            }
            let l = lower_text(trimmed.as_str());
            if contains_text(l.as_str(), "not found") || contains_text(
                l.as_str(),
                resource_phrase,
            ) || contains_text(l.as_str(), "does not exist") {
                InfoMessageClass::NotFound
            } else {
                InfoMessageClass::Unexpected(owned(raw))
            }
        },
    }
}

/// What is made of the URL of a next page, given what it parses to: a URL of
/// another origin is refused, since it would be sent the API key.
pub open spec fn accepted_url(
    base: EndpointView,
    raw: Seq<char>,
    parsed: Result<EndpointView, Seq<char>>,
) -> Result<Seq<char>, (u16, Seq<char>)> {
    match parsed {
        Err(e) => Err((502u16, "malformed pagination URL "@ + quoted(raw) + ": "@ + e)),
        Ok(u) => if same_origin(u, base) {
            Ok(u.url)
        } else {
            Err(
                (
                    502u16,
                    "refusing cross-origin pagination URL "@ + quoted(raw) + " (base is "@
                        + base.url + ")"@,
                ),
            )
        },
    }
}

/// The status and body of an error, as the model of a refusal has them.
pub open spec fn is_refusal(e: BrazeApiError, refusal: (u16, Seq<char>)) -> bool {
    e matches BrazeApiError::Http { status, body } && status == refusal.0 && body@ == refusal.1
}

/// Accepts or refuses the URL of a next page, given what it parses to.
pub fn accept_pagination_url(
    base: &Endpoint,
    raw: &str,
    parsed: Result<Endpoint, String>,
) -> (r: Result<String, BrazeApiError>)
    ensures
        match accepted_url(base@, raw@, crate::endpoint::parse_view(parsed)) {
            Ok(u) => r matches Ok(s) && s@ == u,
            Err(refusal) => r matches Err(e) && is_refusal(e, refusal),
        },
{
    match parsed {
        Err(e) => {
            let mut body = owned("malformed pagination URL ");
            body.push_str(quoted_text(raw).as_str());
            body.push_str(": ");
            body.push_str(e.as_str());
            Err(BrazeApiError::Http { status: 502, body })
        },
        Ok(u) => {
            if u.has_origin_of(base) {
                Ok(u.url)
            } else {
                let mut body = owned("refusing cross-origin pagination URL ");
                body.push_str(quoted_text(raw).as_str());
                body.push_str(" (base is ");
                body.push_str(base.url.as_str());
                body.push_str(")");
                Err(BrazeApiError::Http { status: 502, body })
            }
        },
    }
}

/// What is done to the resource that a URL names.
#[derive(Debug, Clone, Copy, PartialEq, Eq, Structural)]
pub enum Method {
    Get,
    Post,
    Delete,
}

/// A call of the API, without its body: the path as segments, and the
/// parameters behind it.
#[derive(Debug, PartialEq, Eq)]
pub struct Call {
    pub method: Method,
    pub segments: Vec<String>,
    pub query: Vec<(String, String)>,
}

/// What a call is.
#[verifier::ext_equal]
pub struct CallView {
    pub method: Method,
    pub segments: Seq<Seq<char>>,
    pub query: Seq<(Seq<char>, Seq<char>)>,
}

impl View for Call {
    type V = CallView;

    open spec fn view(&self) -> CallView {
        CallView {
            method: self.method,
            segments: strs(self.segments@),
            query: self.query@.map_values(|p: (String, String)| (p.0@, p.1@)),
        }
    }
}

impl Call {
    /// A call of a path, without parameters.
    pub fn new(method: Method, segments: Vec<String>) -> (r: Call)
        ensures
            r@ == (CallView { method, segments: strs(segments@), query: Seq::empty() }),
    {
        let r = Call { method, segments, query: Vec::new() };
        assert(r@.query =~= Seq::empty());
        r
    }

    /// The call with one parameter.
    pub fn with_query(self, key: &str, value: &str) -> (r: Call)
        ensures
            r@ == (CallView { query: self@.query.push((key@, value@)), ..self@ }),
    {
        let ghost before = self@;
        let mut query = self.query;
        query.push((owned(key), owned(value)));
        let r = Call { method: self.method, segments: self.segments, query };
        assert(r@.query =~= before.query.push((key@, value@)));
        r
    }
}

/// The side of the API client that decides: where requests go and which
/// pages may be followed. Sending them, and the API key, are kept apart from
/// it.
#[derive(Debug, PartialEq, Eq)]
pub struct BrazeClient {
    pub base_url: Endpoint,
}

impl BrazeClient {
    pub fn new(base_url: Endpoint) -> (r: BrazeClient)
        ensures
            r.base_url == base_url,
    {
        BrazeClient { base_url }
    }

    /// The URL of a call. Whatever path the base URL has is dropped; `None`
    /// where it can have none.
    pub fn url_for(&self, segments: &Vec<String>) -> (r: Option<String>)
        ensures
            crate::text::opt_text(r) == url_with_path(self.base_url@.url, strs(segments@)),
    {
        self.base_url.with_path(segments)
    }

    /// Accepts or refuses the URL of a next page.
    pub fn get_absolute(&self, url: &str) -> (r: Result<String, BrazeApiError>)
        ensures
            match accepted_url(self.base_url@, url@, endpoint_of(url@)) {
                Ok(u) => r matches Ok(s) && s@ == u,
                Err(refusal) => r matches Err(e) && is_refusal(e, refusal),
            },
    {
        let parsed = Endpoint::parse(url);
        accept_pagination_url(&self.base_url, url, parsed)
    }
}

/// Where the server names no wait, the longest first wait is half a second.
/// It doubles with every attempt and never goes over ten seconds.
pub proof fn backoff_doubles_up_to_a_cap(attempt: u32)
    ensures
        backoff_limit(0) == 500,
        backoff_limit(attempt) <= 10_000,
        attempt < u32::MAX ==> backoff_limit((attempt + 1) as u32) == if 2 * backoff_limit(attempt)
            <= 10_000 {
            2 * backoff_limit(attempt)
        } else {
            10_000
        },
{
    vstd::arithmetic::power2::lemma2_to64();
}

/// A wait is as long as the server asks for, or as was drawn where it asks
/// for nothing, but never longer than the budget allows.
pub proof fn waits_follow_the_server(asked: u64, drawn: u64, remaining: u64)
    ensures
        wait_ms(Some(asked), drawn, remaining) <= remaining,
        wait_ms(None, drawn, remaining) <= remaining,
        asked * 1000 <= remaining ==> wait_ms(Some(asked), drawn, remaining) == asked * 1000,
        asked * 1000 > remaining ==> wait_ms(Some(asked), drawn, remaining) == remaining,
        drawn <= remaining ==> wait_ms(None, drawn, remaining) == drawn,
        drawn > remaining ==> wait_ms(None, drawn, remaining) == remaining,
{
}

/// A header that gives a number asks for that many seconds. One that gives a
/// date asks to wait until then, and for no wait where the date is past. Any
/// other asks for nothing.
pub proof fn retry_after_leads_up_to_the_date(text: Seq<char>, date: i64, now: i64)
    ensures
        retry_after(None, Some(date), now) is None,
        number_value(text) matches Some(n) ==> retry_after(Some(text), Some(date), now) == Some(n)
            && retry_after(Some(text), None, now) == Some(n),
        number_value(text) is None ==> retry_after(Some(text), None, now) is None,
        number_value(text) is None && date <= now ==> retry_after(Some(text), Some(date), now)
            == Some(0u64),
        number_value(text) is None && date > now && date - now <= i64::MAX ==> (retry_after(
            Some(text),
            Some(date),
            now,
        ) matches Some(n) && now + n == date),
        secs_until(date, now) <= i64::MAX,
{
}

/// A request is given up after a hundred attempts or a minute of waiting, and
/// not before.
pub proof fn retries_end_after_a_minute(state: RetryState)
    ensures
        state.exhausted() <==> state.attempt >= 100 || state.elapsed_ms >= 60_000,
        state.wf() <==> state.attempt <= 100 && state.elapsed_ms <= 60_000,
{
}

/// A list is taken for whole exactly if it holds as many entries as it
/// reports, or where it reports nothing, if the page is not full.
pub proof fn whole_lists_are_taken(total: usize, returned: usize, limit: usize)
    ensures
        truncation(Some(total), returned, limit) is None <==> total <= returned,
        truncation(None, returned, limit) is None <==> returned < limit,
        truncation(Some(total), returned, limit) matches Some(m) ==> m == "got "@ + decimal(
            returned as nat,
        ) + " of "@ + decimal(total as nat) + " results"@,
        truncation(None, returned, limit) matches Some(m) ==> is_shown(
            decimal(returned as nat),
            m,
        ),
{
    if returned >= limit {
        lemma_shown_between(
            "got a full page of "@,
            decimal(returned as nat),
            " result(s) with no total reported; cannot verify whether more exist"@,
        );
    }
}

/// A name that is called repeated is in the list twice, and no name before
/// the second place is.
pub proof fn repeated_name_is_there_twice(names: Seq<Seq<char>>) -> (at: (int, int))
    requires
        first_repeated(names) is Some,
    ensures
        0 <= at.0 < at.1 < names.len(),
        names[at.0] == first_repeated(names)->0,
        names[at.1] == first_repeated(names)->0,
        names.take(at.1).no_duplicates(),
    decreases names.len(),
{
    let before = names.drop_last();
    if first_repeated(before) is Some {
        let at = repeated_name_is_there_twice(before);
        assert(names.take(at.1) =~= before.take(at.1));
        at
    } else {
        lemma_none_repeated(before);
        let i = choose|i: int| 0 <= i < before.len() && before[i] == names.last();
        assert(names.take(names.len() - 1) =~= before);
        (i, names.len() - 1)
    }
}

/// A message says that a resource does not exist exactly if one of the
/// phrases for that is in it, whatever its case and the blanks around it.
pub proof fn absence_is_read_from_the_phrases(
    message: Seq<char>,
    phrase: Seq<char>,
    a: Seq<char>,
    b: Seq<char>,
)
    ensures
        lower(trim(message)) == a + "not found"@ + b ==> says_not_found(message, phrase),
        lower(trim(message)) == a + "does not exist"@ + b ==> says_not_found(message, phrase),
        lower(trim(message)) == a + phrase + b ==> says_not_found(message, phrase),
        says_not_found(message, phrase) ==> is_shown("not found"@, lower(trim(message)))
            || is_shown("does not exist"@, lower(trim(message))) || is_shown(
            phrase,
            lower(trim(message)),
        ),
{
    reveal(is_shown);
    lemma_shown_between(a, "not found"@, b);
    lemma_shown_between(a, "does not exist"@, b);
    lemma_shown_between(a, phrase, b);
}

/// A message says that all is well exactly if it is the one word for that,
/// whatever its case and the blanks around it.
pub proof fn success_is_one_word(message: Seq<char>)
    ensures
        says_success(message) <==> lower(trim(message)) == "success"@,
{
    reveal_strlit("success");
    assert(lower("success"@) =~= "success"@);
}

/// The next page is fetched only from where the first one came from: scheme,
/// host and port have to agree. Anything else is refused and the refusal
/// names the URL.
pub proof fn pages_stay_with_their_origin(
    base: EndpointView,
    raw: Seq<char>,
    parsed: Result<EndpointView, Seq<char>>,
)
    ensures
        accepted_url(base, raw, parsed) is Ok <==> (parsed matches Ok(u) && u.scheme
            == base.scheme && u.host == base.host && u.port == base.port),
        accepted_url(base, raw, parsed) matches Ok(url) ==> (parsed matches Ok(u) && u.url == url),
        accepted_url(base, raw, parsed) matches Err(e) ==> e.0 == 502 && is_shown(
            quoted(raw),
            e.1,
        ),
{
    match parsed {
        Err(e) => {
            let a = "malformed pagination URL "@;
            assert(a + quoted(raw) + ": "@ + e =~= a + quoted(raw) + (": "@ + e));
            lemma_shown_between(a, quoted(raw), ": "@ + e);
        },
        Ok(u) => {
            let a = "refusing cross-origin pagination URL "@;
            let z = " (base is "@ + base.url + ")"@;
            assert(a + quoted(raw) + " (base is "@ + base.url + ")"@ =~= a + quoted(raw) + z);
            lemma_shown_between(a, quoted(raw), z);
        },
    }
}

/// The next page is that of the first link that says so: a link found leads
/// on, and no link before it in its header or in an earlier header does.
pub proof fn next_page_is_the_first_that_says_so(headers: Seq<Seq<char>>, h: int, p: int)
    requires
        0 <= h < headers.len(),
        0 <= p < split(headers[h], ',').len(),
        next_url_of_link(split(headers[h], ',')[p]) is Some,
        forall|i: int, j: int|
            0 <= i < headers.len() && 0 <= j < split(headers[i], ',').len() && (i < h || (i == h
                && j < p)) ==> next_url_of_link(#[trigger] split(headers[i], ',')[j]) is None,
    ensures
        next_link(headers) == next_url_of_link(split(headers[h], ',')[p]),
    decreases h,
{
    if h == 0 {
        lemma_first_next(split(headers[0], ','), p);
    } else {
        let rest = headers.drop_first();
        lemma_no_next(split(headers[0], ','));
        assert forall|i: int, j: int|
            0 <= i < rest.len() && 0 <= j < split(rest[i], ',').len() && (i < h - 1 || (i == h - 1
                && j < p)) implies next_url_of_link(#[trigger] split(rest[i], ',')[j]) is None by {
            assert(rest[i] == headers[i + 1]);
            assert(next_url_of_link(split(headers[i + 1], ',')[j]) is None);
        }
        assert(rest[h - 1] == headers[h]);
        next_page_is_the_first_that_says_so(rest, h - 1, p);
    }
}

proof fn lemma_first_next(parts: Seq<Seq<char>>, p: int)
    requires
        0 <= p < parts.len(),
        next_url_of_link(parts[p]) is Some,
        forall|j: int| 0 <= j < p ==> next_url_of_link(#[trigger] parts[j]) is None,
    ensures
        first_next(parts) == next_url_of_link(parts[p]),
    decreases p,
{
    if p > 0 {
        assert(next_url_of_link(parts[0]) is None);
        let rest = parts.drop_first();
        assert forall|j: int| 0 <= j < p - 1 implies next_url_of_link(
            #[trigger] rest[j],
        ) is None by {
            assert(rest[j] == parts[j + 1]);
        }
        assert(rest[p - 1] == parts[p]);
        lemma_first_next(rest, p - 1);
    }
}

proof fn lemma_no_next(parts: Seq<Seq<char>>)
    requires
        forall|j: int| 0 <= j < parts.len() ==> next_url_of_link(#[trigger] parts[j]) is None,
    ensures
        first_next(parts) is None,
    decreases parts.len(),
{
    if parts.len() > 0 {
        assert(next_url_of_link(parts[0]) is None);
        let rest = parts.drop_first();
        assert forall|j: int| 0 <= j < rest.len() implies next_url_of_link(
            #[trigger] rest[j],
        ) is None by {
            assert(rest[j] == parts[j + 1]);
        }
        lemma_no_next(rest);
    }
}

/// Where no link says that it leads on, there is no next page.
pub proof fn last_page_has_no_next(headers: Seq<Seq<char>>)
    requires
        forall|i: int, j: int|
            0 <= i < headers.len() && 0 <= j < split(headers[i], ',').len()
                ==> next_url_of_link(#[trigger] split(headers[i], ',')[j]) is None,
    ensures
        next_link(headers) is None,
    decreases headers.len(),
{
    if headers.len() > 0 {
        let rest = headers.drop_first();
        lemma_no_next(split(headers[0], ','));
        assert forall|i: int, j: int|
            0 <= i < rest.len() && 0 <= j < split(rest[i], ',').len() implies next_url_of_link(
            #[trigger] split(rest[i], ',')[j],
        ) is None by {
            assert(rest[i] == headers[i + 1]);
            assert(next_url_of_link(split(headers[i + 1], ',')[j]) is None);
        }
        last_page_has_no_next(rest);
    }
}

/// A link leads on if one of its parameters is `rel` with `next` among its
/// words, in whatever case; its URL is what stands between the brackets
/// before the first semicolon.
pub proof fn link_leads_on_by_its_parameters(
    part: Seq<char>,
    url: Seq<char>,
    params: Seq<char>,
    i: int,
)
    requires
        trim(part) == url + seq![';'] + params,
        !url.contains(';'),
    ensures
        next_url_of_link(part) is Some <==> some_next_param(split(params, ';')),
        next_url_of_link(part) matches Some(u) ==> u == strip_end(
            strip_start(trim(url), Strip::Only('<')),
            Strip::Only('>'),
        ),
        0 <= i < split(params, ';').len() && is_next_param(split(params, ';')[i])
            ==> next_url_of_link(part) is Some,
{
    let t = trim(part);
    let n = url.len() as int;
    t.index_of_first_ensures(';');
    assert(t[n] == ';');
    assert(t.contains(';'));
    let k = t.index_of_first(';')->0;
    assert(k == n) by {
        if k < n {
            assert(url[k] == ';');
        }
        if k > n {
            assert(t[n] != ';');
        }
    }
    assert(t.take(n) =~= url);
    assert(t.skip(n + 1) =~= params);
}

/// A parameter says that a link leads on if its key is `rel` and one of the
/// words of its value, without the quotes around it, is `next`.
pub proof fn leading_on_is_said_by_rel(p: Seq<char>, k: Seq<char>, v: Seq<char>)
    requires
        trim(p) == k + seq!['='] + v,
        !k.contains('='),
    ensures
        is_next_param(p) <==> lower(trim(k)) == "rel"@ && (exists|i: int|
            0 <= i < rel_words(v).len() && lower(#[trigger] rel_words(v)[i]) == "next"@),
        rel_words(v) == words(
            strip_end(strip_start(trim(v), Strip::Only('"')), Strip::Only('"')),
            Strip::AsciiWhite,
        ),
        trim(p) == k ==> !is_next_param(p),
{
    reveal_strlit("rel");
    reveal_strlit("next");
    assert(lower("rel"@) =~= "rel"@);
    assert(lower("next"@) =~= "next"@);
    let t = trim(p);
    let n = k.len() as int;
    t.index_of_first_ensures('=');
    assert(t[n] == '=');
    assert(t.contains('='));
    let f = t.index_of_first('=')->0;
    assert(f == n) by {
        if f < n {
            assert(k[f] == '=');
        }
        if f > n {
            assert(t[n] != '=');
        }
    }
    assert(t.take(n) =~= k);
    assert(t.skip(n + 1) =~= v);
}

} // verus!

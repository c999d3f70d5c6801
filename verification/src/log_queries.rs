//! Usage-log presentation and summaries: API names by endpoint, defaulted
//! display fields, the query time window, and a downstream's token totals.
use vstd::prelude::*;
use crate::config::{opt_view, DownstreamConfig, PersistedState, UpstreamConfig, UsageLog};
use crate::normalize::normalized_list;
use crate::text::{
    chars_eq, chars_of, contains_text, lower_chars, lower_seq, owned, string_from_chars, trim_seq,
    trimmed_chars, views,
};

verus! {

/// A page query over usage logs.
#[derive(Debug, Clone)]
pub struct UsageLogQuery {
    pub page: usize,
    pub page_size: usize,
    pub status_codes: Vec<u16>,
    pub model_substring: Option<String>,
    pub start_time: Option<u64>,
    pub end_time: Option<u64>,
}

impl Default for UsageLogQuery {
    fn default() -> (r: Self)
        ensures
            r.page == 1 && r.page_size == 10 && r.status_codes@.len() == 0,
            r.model_substring is None && r.start_time is None && r.end_time is None,
    {
        UsageLogQuery {
            page: 1,
            page_size: 10,
            status_codes: Vec::new(),
            model_substring: None,
            start_time: None,
            end_time: None,
        }
    }
}

/// A usage log with its display fields.
#[derive(Debug, Clone)]
pub struct EnrichedUsageLog {
    pub log: UsageLog,
    pub api_name: String,
    pub inference_strength: String,
    pub log_type: String,
    pub billing_mode: String,
    pub request_count: u64,
    pub user_agent: String,
}

/// One page of enriched usage logs.
#[derive(Debug, Clone)]
pub struct UsageLogPage {
    pub logs: Vec<EnrichedUsageLog>,
    pub total: usize,
    pub page: usize,
    pub page_size: usize,
    pub total_pages: usize,
}

/// Token usage of one downstream.
#[derive(Debug, Clone, PartialEq, Eq)]
pub struct DownstreamUsageSummary {
    pub downstream_id: String,
    pub today_tokens: u64,
    pub month_tokens: u64,
    pub total_models: usize,
    pub active_models: usize,
}

/// `sub` occurs in `s`.
pub open spec fn has_sub(s: Seq<char>, sub: Seq<char>) -> bool {
    exists|i: int| 0 <= i && i + sub.len() <= s.len() && #[trigger] s.subrange(i, i + sub.len()) == sub
}

/// `str::contains` on character sequences.
pub fn contains_sub(s: &Vec<char>, sub: &Vec<char>) -> (r: bool)
    ensures
        r == has_sub(s@, sub@),
{
    if sub.len() > s.len() {
        return false;
    }
    let last = s.len() - sub.len();
    let mut i: usize = 0;
    loop
        invariant
            last + sub.len() == s.len(),
            i <= last,
            forall|k: int| 0 <= k < i ==> #[trigger] s@.subrange(k, k + sub@.len()) != sub@,
        decreases last + 1 - i,
    {
        let part = crate::text::slice_chars(s, i, i + sub.len());
        if chars_eq(&part, sub) {
            return true;
        }
        if i == last {
            assert forall|k: int| 0 <= k && k + sub@.len() <= s@.len() implies #[trigger] s@.subrange(k, k + sub@.len()) != sub@ by {
                assert(k <= i);
            }
            return false;
        }
        i += 1;
    }
}

/// The API name and log type shown for a request endpoint.
pub open spec fn api_name_spec(endpoint: Seq<char>) -> (Seq<char>, Seq<char>) {
    let l = lower_seq(endpoint);
    if has_sub(l, "/files"@) && (has_sub(l, "/content"@) || has_sub(l, "/download"@)) {
        ("文件下载"@, "文件"@)
    } else if has_sub(l, "/files"@) || has_sub(l, "/upload"@) {
        ("文件上传"@, "文件"@)
    } else if has_sub(l, "/responses"@) {
        ("Responses API"@, "推理"@)
    } else if has_sub(l, "/chat/completions"@) {
        ("ChatCompletions API"@, "对话"@)
    } else if has_sub(l, "/embeddings"@) {
        ("Embeddings API"@, "向量"@)
    } else {
        ("通用 API"@, "其它"@)
    }
}

/// The display name and type of an endpoint, by the markers it holds
/// (ignoring ASCII case): file downloads, uploads, the Responses, Chat
/// Completions and Embeddings APIs, in that order of precedence; the
/// general name exactly when none of the markers occurs.
pub proof fn law_api_names(endpoint: Seq<char>)
    ensures
        ({
            let l = lower_seq(endpoint);
            let files = has_sub(l, "/files"@);
            let upload = has_sub(l, "/upload"@);
            let responses = has_sub(l, "/responses"@);
            let chat = has_sub(l, "/chat/completions"@);
            let embeddings = has_sub(l, "/embeddings"@);
            &&& files && (has_sub(l, "/content"@) || has_sub(l, "/download"@)) ==> api_name_spec(endpoint) == (
                "文件下载"@,
                "文件"@,
            )
            &&& (files || upload) && !(files && (has_sub(l, "/content"@) || has_sub(l, "/download"@)))
                ==> api_name_spec(endpoint) == ("文件上传"@, "文件"@)
            &&& !files && !upload && responses ==> api_name_spec(endpoint) == ("Responses API"@, "推理"@)
            &&& !files && !upload && !responses && chat ==> api_name_spec(endpoint) == (
                "ChatCompletions API"@,
                "对话"@,
            )
            &&& !files && !upload && !responses && !chat && embeddings ==> api_name_spec(endpoint) == (
                "Embeddings API"@,
                "向量"@,
            )
            &&& (api_name_spec(endpoint) == ("通用 API"@, "其它"@)) <==> (!files && !upload && !responses && !chat
                && !embeddings)
        }),
{
    reveal_strlit("文件下载");
    reveal_strlit("文件上传");
    reveal_strlit("Responses API");
    reveal_strlit("ChatCompletions API");
    reveal_strlit("Embeddings API");
    reveal_strlit("通用 API");
    assert("通用 API"@.len() == 6);
    assert("文件下载"@.len() == 4 && "文件上传"@.len() == 4);
    assert("Responses API"@.len() == 13 && "ChatCompletions API"@.len() == 19 && "Embeddings API"@.len() == 14);
}

pub fn resolve_api_name_and_type(endpoint: &str) -> (r: (&'static str, &'static str))
    ensures
        (r.0@, r.1@) == api_name_spec(endpoint@),
{
    let lower = lower_chars(&chars_of(endpoint));
    let files = contains_sub(&lower, &chars_of("/files"));
    if files && (contains_sub(&lower, &chars_of("/content")) || contains_sub(&lower, &chars_of("/download"))) {
        return ("文件下载", "文件");
    }
    if files || contains_sub(&lower, &chars_of("/upload")) {
        return ("文件上传", "文件");
    }
    if contains_sub(&lower, &chars_of("/responses")) {
        return ("Responses API", "推理");
    }
    if contains_sub(&lower, &chars_of("/chat/completions")) {
        return ("ChatCompletions API", "对话");
    }
    if contains_sub(&lower, &chars_of("/embeddings")) {
        return ("Embeddings API", "向量");
    }
    ("通用 API", "其它")
}

/// The trimmed value when present and non-blank, else `fallback`.
pub open spec fn text_or(v: Option<Seq<char>>, fallback: Seq<char>) -> Seq<char> {
    match v {
        Some(s) => if trim_seq(s).len() > 0 {
            trim_seq(s)
        } else {
            fallback
        },
        None => fallback,
    }
}

/// A display text is the given value trimmed when it is not blank, else
/// the fallback.
pub proof fn law_text_or(v: Option<Seq<char>>, fallback: Seq<char>)
    ensures
        forall|s: Seq<char>| v == Some(s) && #[trigger] trim_seq(s).len() > 0 ==> text_or(v, fallback) == trim_seq(s),
        v is None ==> text_or(v, fallback) == fallback,
        forall|s: Seq<char>| v == Some(s) && #[trigger] trim_seq(s).len() == 0 ==> text_or(v, fallback) == fallback,
{
}

fn text_or_exec(v: &Option<String>, fallback: &str) -> (r: String)
    ensures
        r@ == text_or(opt_view(*v), fallback@),
{
    match v {
        Some(s) => {
            let t = trimmed_chars(s.as_str());
            if t.len() > 0 {
                string_from_chars(&t)
            } else {
                owned(fallback)
            }
        },
        None => owned(fallback),
    }
}

pub fn copy_usage_log(log: &UsageLog) -> (r: UsageLog)
    ensures
        r.downstream_key_id@ == log.downstream_key_id@,
        r.model@ == log.model@,
        r.endpoint@ == log.endpoint@,
        r.status_code == log.status_code,
        r.total_tokens == log.total_tokens,
        r.created_at == log.created_at,
        opt_view(r.inference_strength) == opt_view(log.inference_strength),
        opt_view(r.billing_mode) == opt_view(log.billing_mode),
        r.request_count == log.request_count,
        opt_view(r.user_agent) == opt_view(log.user_agent),
{
    UsageLog {
        downstream_key_id: owned(log.downstream_key_id.as_str()),
        model: owned(log.model.as_str()),
        endpoint: owned(log.endpoint.as_str()),
        status_code: log.status_code,
        total_tokens: log.total_tokens,
        created_at: log.created_at,
        inference_strength: copy_opt(&log.inference_strength),
        billing_mode: copy_opt(&log.billing_mode),
        request_count: log.request_count,
        user_agent: copy_opt(&log.user_agent),
    }
}

fn copy_opt(v: &Option<String>) -> (r: Option<String>)
    ensures
        opt_view(r) == opt_view(*v),
{
    match v {
        Some(s) => Some(owned(s.as_str())),
        None => None,
    }
}

/// A usage log with its display fields: API name and type by endpoint;
/// strength, billing mode and user agent trimmed with defaults; one request
/// unless counted.
pub fn enrich_usage_log(log: &UsageLog) -> (r: EnrichedUsageLog)
    ensures
        (r.api_name@, r.log_type@) == api_name_spec(log.endpoint@),
        r.inference_strength@ == text_or(opt_view(log.inference_strength), "标准"@),
        r.billing_mode@ == text_or(
            opt_view(log.billing_mode),
            if log.total_tokens > 0 {
                "Token 计费"@
            } else {
                "请求计费"@
            },
        ),
        r.request_count == match log.request_count {
            Some(n) => n,
            None => 1,
        },
        r.user_agent@ == text_or(opt_view(log.user_agent), "未采集"@),
        r.log.endpoint@ == log.endpoint@ && r.log.model@ == log.model@ && r.log.created_at
            == log.created_at && r.log.total_tokens == log.total_tokens,
{
    let (api_name, log_type) = resolve_api_name_and_type(log.endpoint.as_str());
    let fallback_billing = if log.total_tokens > 0 {
        "Token 计费"
    } else {
        "请求计费"
    };
    EnrichedUsageLog {
        log: copy_usage_log(log),
        api_name: owned(api_name),
        inference_strength: text_or_exec(&log.inference_strength, "标准"),
        log_type: owned(log_type),
        billing_mode: text_or_exec(&log.billing_mode, fallback_billing),
        request_count: match log.request_count {
            Some(n) => n,
            None => 1,
        },
        user_agent: text_or_exec(&log.user_agent, "未采集"),
    }
}

/// The time window of a query: the given bounds (start defaulting to 0, end
/// to `now`) in order, or the last seven days.
pub fn query_time_bounds(query: &UsageLogQuery, now: u64) -> (r: (u64, u64))
    ensures
        (query.start_time is Some || query.end_time is Some) ==> {
            let start = match query.start_time {
                Some(s) => s,
                None => 0,
            };
            let end = match query.end_time {
                Some(e) => e,
                None => now,
            };
            r == if start <= end {
                (start, end)
            } else {
                (end, start)
            }
        },
        (query.start_time is None && query.end_time is None) ==> r == (
            if now >= 604800 {
                (now - 604800) as u64
            } else {
                0
            },
            now,
        ),
{
    if query.start_time.is_some() || query.end_time.is_some() {
        let start = match query.start_time {
            Some(s) => s,
            None => 0,
        };
        let end = match query.end_time {
            Some(e) => e,
            None => now,
        };
        if start <= end {
            (start, end)
        } else {
            (end, start)
        }
    } else {
        (now.saturating_sub(7 * 86_400), now)
    }
}

/// The first second (UTC) of the calendar month containing unix time `now`,
/// as chrono computes it.
pub uninterp spec fn month_start_of(now: u64) -> u64;

/// Latest unix time the calendar computations accept (chrono's range ends
/// in the year 262143).
pub const CALENDAR_MAX_UNIX_SECONDS: u64 = 8_000_000_000_000;

/// chrono: the first day of `now`'s UTC month at midnight, as unix seconds.
/// Claimed: the result is `month_start_of(now)`, and it is not after the
/// UTC midnight that starts `now`'s own day (the first of a month comes on
/// or before any day of that month); nothing more is stated.
#[verifier::external_body]
fn current_month_start(now: u64) -> (r: u64)
    requires
        now <= CALENDAR_MAX_UNIX_SECONDS,
    ensures
        r == month_start_of(now),
        r <= (now / 86400) * 86400,
{
    let datetime = chrono::DateTime::<chrono::Utc>::from_timestamp(now as i64, 0).unwrap();
    let first = chrono::Datelike::with_day(&datetime.date_naive(), 1).unwrap();
    first.and_hms_opt(0, 0, 0).unwrap().and_utc().timestamp() as u64
}

/// Tokens of the logs of downstream `id` created at or after `since`.
pub open spec fn tokens_since(logs: Seq<UsageLog>, id: Seq<char>, since: u64) -> nat
    decreases logs.len(),
{
    if logs.len() == 0 {
        0
    } else {
        tokens_since(logs.drop_last(), id, since) + if logs.last().downstream_key_id@ == id
            && logs.last().created_at >= since {
            logs.last().total_tokens as nat
        } else {
            0
        }
    }
}

/// A log adds its tokens to a downstream's count from `since` exactly when
/// it is that downstream's and was made at or after `since`.
pub proof fn law_tokens_since_step(logs: Seq<UsageLog>, log: UsageLog, id: Seq<char>, since: u64)
    ensures
        tokens_since(logs.push(log), id, since) == tokens_since(logs, id, since) + if log.downstream_key_id@ == id
            && log.created_at >= since {
            log.total_tokens as nat
        } else {
            0nat
        },
        tokens_since(Seq::<UsageLog>::empty(), id, since) == 0,
{
    assert(logs.push(log).drop_last() == logs);
}

/// Counting from a later time counts no more tokens.
pub proof fn lemma_tokens_since_later(logs: Seq<UsageLog>, id: Seq<char>, early: u64, late: u64)
    requires
        early <= late,
    ensures
        tokens_since(logs, id, late) <= tokens_since(logs, id, early),
    decreases logs.len(),
{
    if logs.len() > 0 {
        lemma_tokens_since_later(logs.drop_last(), id, early, late);
    }
}

/// First occurrences, in order.
pub open spec fn distinct(s: Seq<Seq<char>>) -> Seq<Seq<char>>
    decreases s.len(),
{
    if s.len() == 0 {
        Seq::empty()
    } else {
        let prev = distinct(s.drop_last());
        if prev.contains(s.last()) {
            prev
        } else {
            prev.push(s.last())
        }
    }
}

/// Keeping first occurrences holds each value once and exactly the values
/// of the input.
pub proof fn law_distinct(s: Seq<Seq<char>>)
    ensures
        distinct(s).no_duplicates(),
        forall|x: Seq<char>| #[trigger] distinct(s).contains(x) <==> s.contains(x),
    decreases s.len(),
{
    if s.len() > 0 {
        let d = s.drop_last();
        law_distinct(d);
        let prev = distinct(d);
        assert(s[s.len() - 1] == s.last());
        assert forall|x: Seq<char>| #[trigger] distinct(s).contains(x) <==> s.contains(x) by {
            if s.contains(x) {
                let i = choose|i: int| 0 <= i < s.len() && s[i] == x;
                if i < d.len() {
                    assert(d[i] == x);
                    assert(d.contains(x));
                    assert(prev.contains(x));
                    if !prev.contains(s.last()) {
                        let k = choose|k: int| 0 <= k < prev.len() && prev[k] == x;
                        assert(prev.push(s.last())[k] == x);
                    }
                } else if !prev.contains(s.last()) {
                    assert(prev.push(s.last())[prev.len() as int] == x);
                }
            }
            if distinct(s).contains(x) {
                if prev.contains(x) {
                    assert(d.contains(x));
                    let i = choose|i: int| 0 <= i < d.len() && d[i] == x;
                    assert(s[i] == x);
                }
            }
        }
        if !prev.contains(s.last()) {
            let n = prev.push(s.last());
            assert forall|a: int, b: int| 0 <= a < n.len() && 0 <= b < n.len() && a != b implies n[a] != n[b] by {
                if a < prev.len() && b < prev.len() {
                } else if a < prev.len() {
                    assert(prev.contains(prev[a]));
                } else {
                    assert(prev.contains(prev[b]));
                }
            }
        }
    }
}

/// The models a downstream used are those of its own logs, each admitted
/// by its allowlist when it has one.
pub proof fn law_logged_models(logs: Seq<UsageLog>, id: Seq<char>, allow: Seq<Seq<char>>)
    ensures
        forall|m: Seq<char>|
            #[trigger] logged_models(logs, id, allow).contains(m) <==> exists|i: int|
                0 <= i < logs.len() && (#[trigger] logs[i]).downstream_key_id@ == id && logs[i].model@ == m && (allow.len()
                    == 0 || allow.contains(m)),
    decreases logs.len(),
{
    if logs.len() > 0 {
        let d = logs.drop_last();
        law_logged_models(d, id, allow);
        let prev = logged_models(d, id, allow);
        let l = logs.last();
        assert(logs[logs.len() - 1] == l);
        let tail = if l.downstream_key_id@ == id && (allow.len() == 0 || allow.contains(l.model@)) {
            seq![l.model@]
        } else {
            Seq::<Seq<char>>::empty()
        };
        assert(logged_models(logs, id, allow) == prev + tail);
        assert forall|m: Seq<char>|
            #[trigger] logged_models(logs, id, allow).contains(m) <==> exists|i: int|
                0 <= i < logs.len() && (#[trigger] logs[i]).downstream_key_id@ == id && logs[i].model@ == m && (allow.len()
                    == 0 || allow.contains(m)) by {
            if logged_models(logs, id, allow).contains(m) {
                let k = choose|k: int| 0 <= k < (prev + tail).len() && (prev + tail)[k] == m;
                if k < prev.len() {
                    assert(prev[k] == m);
                    assert(prev.contains(m));
                    let i = choose|i: int|
                        0 <= i < d.len() && (#[trigger] d[i]).downstream_key_id@ == id && d[i].model@ == m && (allow.len() == 0
                            || allow.contains(m));
                    assert(logs[i] == d[i]);
                }
            }
            if exists|i: int|
                0 <= i < logs.len() && (#[trigger] logs[i]).downstream_key_id@ == id && logs[i].model@ == m && (allow.len()
                    == 0 || allow.contains(m)) {
                let i = choose|i: int|
                    0 <= i < logs.len() && (#[trigger] logs[i]).downstream_key_id@ == id && logs[i].model@ == m && (allow.len()
                        == 0 || allow.contains(m));
                if i < d.len() {
                    assert(d[i] == logs[i]);
                    assert(prev.contains(m));
                    let k = choose|k: int| 0 <= k < prev.len() && prev[k] == m;
                    assert((prev + tail)[k] == m);
                } else {
                    assert((prev + tail)[prev.len() as int] == m);
                }
            }
        }
    }
}

/// The route models of the active upstreams, in order.
pub open spec fn active_route_models(ups: Seq<UpstreamConfig>) -> Seq<Seq<char>>
    decreases ups.len(),
{
    if ups.len() == 0 {
        Seq::empty()
    } else {
        active_route_models(ups.drop_last()) + if ups.last().active {
            ups.last().route_models_spec()
        } else {
            Seq::empty()
        }
    }
}

/// The models of downstream `id`'s logs that its allowlist admits.
pub open spec fn logged_models(logs: Seq<UsageLog>, id: Seq<char>, allow: Seq<Seq<char>>) -> Seq<Seq<char>>
    decreases logs.len(),
{
    if logs.len() == 0 {
        Seq::empty()
    } else {
        logged_models(logs.drop_last(), id, allow) + if logs.last().downstream_key_id@ == id && (
        allow.len() == 0 || allow.contains(logs.last().model@)) {
            seq![logs.last().model@]
        } else {
            Seq::empty()
        }
    }
}

/// Index of the first downstream with id `id`.
pub open spec fn first_downstream(ds: Seq<DownstreamConfig>, id: Seq<char>) -> Option<int>
    decreases ds.len(),
{
    if ds.len() == 0 {
        None
    } else {
        match first_downstream(ds.drop_last(), id) {
            Some(i) => Some(i),
            None => if ds.last().id@ == id {
                Some(ds.len() - 1)
            } else {
                None
            },
        }
    }
}

pub proof fn lemma_tokens_monotone(logs: Seq<UsageLog>, id: Seq<char>, since: u64)
    ensures
        tokens_since(logs, id, since) <= tokens_since(logs, id, 0),
    decreases logs.len(),
{
    if logs.len() > 0 {
        lemma_tokens_monotone(logs.drop_last(), id, since);
    }
}

/// The summary could not be built.
#[derive(Debug, Clone, PartialEq, Eq)]
pub enum UsageSummaryError {
    /// No downstream has the id; the message names it.
    NotFound(String),
}

fn distinct_push(out: &mut Vec<String>, v: &String)
    ensures
        views(final(out)@) == if views(old(out)@).contains(v@) {
            views(old(out)@)
        } else {
            views(old(out)@).push(v@)
        },
{
    if !contains_text(out, &chars_of(v.as_str())) {
        let s = owned(v.as_str());
        proof {
            crate::text::lemma_views_push(out@, s);
        }
        out.push(s);
    }
}

/// A downstream's usage: today's and this month's tokens, the number of
/// models it may use (its allowlist, else the distinct route models of the
/// active upstreams) and the number of distinct allowed models it used.
pub fn build_downstream_usage_summary(snapshot: &PersistedState, downstream_id: &str, now: u64) -> (r:
    Result<DownstreamUsageSummary, UsageSummaryError>)
    requires
        now <= CALENDAR_MAX_UNIX_SECONDS,
        tokens_since(snapshot.usage_logs@, downstream_id@, 0) <= u64::MAX,
    ensures
        match first_downstream(snapshot.downstreams@, downstream_id@) {
            None => r matches Err(UsageSummaryError::NotFound(m)) && m@ == "downstream not found: "@
                + downstream_id@,
            Some(i) => r matches Ok(s) && {
                let d = snapshot.downstreams@[i];
                let allow = views(d.model_allowlist@);
                &&& s.downstream_id@ == d.id@
                &&& s.today_tokens == tokens_since(
                    snapshot.usage_logs@,
                    downstream_id@,
                    ((now / 86400) * 86400) as u64,
                )
                &&& s.month_tokens == tokens_since(
                    snapshot.usage_logs@,
                    downstream_id@,
                    month_start_of(now),
                )
                &&& s.today_tokens <= s.month_tokens
                &&& s.total_models == if allow.len() > 0 {
                    allow.len()
                } else {
                    distinct(active_route_models(snapshot.upstreams@)).len()
                }
                &&& s.active_models == distinct(
                    logged_models(snapshot.usage_logs@, downstream_id@, allow),
                ).len()
            },
        },
{
    let id = chars_of(downstream_id);
    let ghost ds = snapshot.downstreams@;
    let mut found: Option<usize> = None;
    for i in 0..snapshot.downstreams.len()
        invariant
            id@ == downstream_id@,
            ds == snapshot.downstreams@,
            found is None ==> first_downstream(ds.take(i as int), downstream_id@) is None,
            found matches Some(f) ==> first_downstream(ds.take(i as int), downstream_id@) == Some(f as int),
    {
        assert(ds.take(i + 1).drop_last() == ds.take(i as int));
        assert(ds.take(i + 1).last() == ds[i as int]);
        if found.is_none() && chars_eq(&chars_of(snapshot.downstreams[i].id.as_str()), &id) {
            found = Some(i);
        }
    }
    assert(ds.take(ds.len() as int) == ds);
    let index = match found {
        Some(f) => f,
        None => {
            let mut m = owned("downstream not found: ");
            crate::text::push_text(&mut m, downstream_id);
            return Err(UsageSummaryError::NotFound(m));
        },
    };
    proof {
        lemma_first_downstream_bounds(ds, downstream_id@);
    }
    let downstream = &snapshot.downstreams[index];
    let today_start = (now / 86_400) * 86_400;
    let month_start = current_month_start(now);
    proof {
        lemma_tokens_monotone(snapshot.usage_logs@, downstream_id@, today_start);
        lemma_tokens_monotone(snapshot.usage_logs@, downstream_id@, month_start);
        lemma_tokens_since_later(snapshot.usage_logs@, downstream_id@, month_start, today_start);
    }
    let ghost logs = snapshot.usage_logs@;
    let ghost allow = views(downstream.model_allowlist@);
    let mut today_tokens: u64 = 0;
    let mut month_tokens: u64 = 0;
    let mut used: Vec<String> = Vec::new();
    assert(views(used@) =~= Seq::<Seq<char>>::empty());
    for i in 0..snapshot.usage_logs.len()
        invariant
            id@ == downstream_id@,
            logs == snapshot.usage_logs@,
            allow == views(downstream.model_allowlist@),
            tokens_since(logs, downstream_id@, today_start) <= u64::MAX,
            tokens_since(logs, downstream_id@, month_start) <= u64::MAX,
            today_tokens == tokens_since(logs.take(i as int), downstream_id@, today_start),
            month_tokens == tokens_since(logs.take(i as int), downstream_id@, month_start),
            views(used@) == distinct(logged_models(logs.take(i as int), downstream_id@, allow)),
    {
        assert(logs.take(i + 1).drop_last() == logs.take(i as int));
        assert(logs.take(i + 1).last() == logs[i as int]);
        proof {
            lemma_tokens_prefix(logs, downstream_id@, today_start, i + 1);
            lemma_tokens_prefix(logs, downstream_id@, month_start, i + 1);
        }
        let log = &snapshot.usage_logs[i];
        if chars_eq(&chars_of(log.downstream_key_id.as_str()), &id) {
            if log.created_at >= today_start {
                today_tokens = today_tokens + log.total_tokens;
            }
            if log.created_at >= month_start {
                month_tokens = month_tokens + log.total_tokens;
            }
            if downstream.model_allowlist.len() == 0 || contains_text(
                &downstream.model_allowlist,
                &chars_of(log.model.as_str()),
            ) {
                proof {
                    lemma_distinct_append(logged_models(logs.take(i as int), downstream_id@, allow), log.model@);
                    assert(logged_models(logs.take(i + 1), downstream_id@, allow) =~= logged_models(
                        logs.take(i as int),
                        downstream_id@,
                        allow,
                    ).push(log.model@));
                }
                distinct_push(&mut used, &log.model);
            } else {
                assert(logged_models(logs.take(i + 1), downstream_id@, allow) =~= logged_models(logs.take(i as int), downstream_id@, allow));
            }
        } else {
            assert(logged_models(logs.take(i + 1), downstream_id@, allow) =~= logged_models(logs.take(i as int), downstream_id@, allow));
        }
    }
    assert(logs.take(logs.len() as int) == logs);
    let total_models = if downstream.model_allowlist.len() > 0 {
        downstream.model_allowlist.len()
    } else {
        let ghost ups = snapshot.upstreams@;
        let mut models: Vec<String> = Vec::new();
        assert(views(models@) =~= Seq::<Seq<char>>::empty());
        for u in 0..snapshot.upstreams.len()
            invariant
                ups == snapshot.upstreams@,
                views(models@) == distinct(active_route_models(ups.take(u as int))),
        {
            assert(ups.take(u + 1).drop_last() == ups.take(u as int));
            assert(ups.take(u + 1).last() == ups[u as int]);
            if snapshot.upstreams[u].active {
                let routes = snapshot.upstreams[u].route_models();
                let ghost base = active_route_models(ups.take(u as int));
                for k in 0..routes.len()
                    invariant
                        views(models@) == distinct(base + views(routes@).take(k as int)),
                {
                    proof {
                        lemma_distinct_append(base + views(routes@).take(k as int), routes@[k as int]@);
                        assert(base + views(routes@).take(k + 1) =~= (base + views(routes@).take(k as int)).push(routes@[k as int]@));
                    }
                    distinct_push(&mut models, &routes[k]);
                }
                assert(views(routes@).take(routes.len() as int) == views(routes@));
            } else {
                assert(active_route_models(ups.take(u + 1)) =~= active_route_models(ups.take(u as int)));
            }
        }
        assert(ups.take(ups.len() as int) == ups);
        models.len()
    };
    Ok(
        DownstreamUsageSummary {
            downstream_id: owned(downstream.id.as_str()),
            today_tokens,
            month_tokens,
            total_models,
            active_models: used.len(),
        },
    )
}

proof fn lemma_distinct_append(s: Seq<Seq<char>>, x: Seq<char>)
    ensures
        distinct(s.push(x)) == if distinct(s).contains(x) {
            distinct(s)
        } else {
            distinct(s).push(x)
        },
{
    assert(s.push(x).drop_last() == s);
}

proof fn lemma_tokens_prefix(logs: Seq<UsageLog>, id: Seq<char>, since: u64, n: int)
    requires
        0 <= n <= logs.len(),
    ensures
        tokens_since(logs.take(n), id, since) <= tokens_since(logs, id, since),
    decreases logs.len() - n,
{
    if n < logs.len() {
        assert(logs.take(n + 1).drop_last() == logs.take(n));
        lemma_tokens_prefix(logs, id, since, n + 1);
    } else {
        assert(logs.take(n) == logs);
    }
}

proof fn lemma_first_downstream_bounds(ds: Seq<DownstreamConfig>, id: Seq<char>)
    ensures
        first_downstream(ds, id) matches Some(i) ==> 0 <= i < ds.len(),
    decreases ds.len(),
{
    if ds.len() > 0 {
        lemma_first_downstream_bounds(ds.drop_last(), id);
    }
}

} // verus!

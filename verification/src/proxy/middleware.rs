//! Middleware: what happens to a request before it is forwarded, and to the reply.
use crate::binary64;
use crate::binary64::Binary64;
use crate::clock::Clock;
use crate::config::ProxyConfig;
use crate::http;
use crate::http::{has_room, Reply, ReplyModel, RequestHead, RequestModel};
use crate::registry::Registry;
use crate::text;
use std::sync::Arc;
use vstd::prelude::*;
use vstd::string::StringExecFns;

verus! {

/// How many response times are kept.
pub const KEPT_TIMES: usize = 1000;

/// A lower-case hexadecimal digit.
pub open spec fn is_hex(c: char) -> bool {
    '0' <= c <= '9' || 'a' <= c <= 'f'
}

/// The text of a random UUID: groups of lower-case hexadecimal digits with hyphens
/// between them, the version digit four, and one of four variant digits.
pub open spec fn is_random_uuid(id: Seq<char>) -> bool {
    &&& id.len() == 36
    &&& id[8] == '-' && id[13] == '-' && id[18] == '-' && id[23] == '-'
    &&& forall|i: int|
        0 <= i < 36 && i != 8 && i != 13 && i != 18 && i != 23 ==> is_hex(#[trigger] id[i])
    &&& id[14] == '4'
    &&& id[19] == '8' || id[19] == '9' || id[19] == 'a' || id[19] == 'b'
}

/// `uuid::Uuid::new_v4` makes a random UUID, here as text. Of its digits only those that
/// are not random are known.
#[verifier::external_body]
fn new_request_id() -> (r: String)
    ensures
        is_random_uuid(r@),
{
    uuid::Uuid::new_v4().to_string()
}

/// What is told from outside when a request comes: the time, in nanoseconds, and an
/// identifier for the request.
pub struct Moment {
    pub now: u64,
    pub request_id: String,
}

/// A stage of the processing of requests and replies.
pub trait Middleware {
    spec fn ready(&self) -> bool;

    /// How many header names the stage may add to a request.
    spec fn request_names(&self) -> nat;

    /// How many header names the stage may add to a reply.
    spec fn reply_names(&self) -> nat;

    /// Lets a request pass, or answers it.
    fn process_request(&mut self, req: &mut RequestHead, client_ip: &str, at: &Moment) -> (r:
        Result<(), Reply>)
        requires
            old(self).ready(),
            old(self).request_names() > 0 ==> has_room(
                old(req)@.fields,
                old(self).request_names(),
            ),
            http::is_visible_text(at.request_id@),
        ensures
            final(self).ready(),
            final(req)@.method == old(req)@.method,
            final(req)@.path == old(req)@.path,
            final(req)@.path_and_query == old(req)@.path_and_query,
    ;

    /// Works on a reply.
    fn process_response(&mut self, resp: &mut Reply, client_ip: &str, now: u64) -> (r: Result<
        (),
        Reply,
    >)
        requires
            old(self).ready(),
            old(self).reply_names() > 0 ==> has_room(
                old(resp)@.fields,
                old(self).reply_names(),
            ),
        ensures
            final(self).ready(),
            final(resp)@.status == old(resp)@.status,
            final(resp)@.body == old(resp)@.body,
    ;
}

// ---------------------------------------------------------------------------------
// Rate limiting
// ---------------------------------------------------------------------------------

/// Tokens that requests use up and time brings back. Times are in nanoseconds.
#[derive(Debug, Clone, Copy, PartialEq, Eq, Structural)]
pub struct TokenBucket {
    pub tokens: Binary64,
    pub last_refill: u64,
    pub capacity: Binary64,
    pub refill_rate: Binary64,
}

/// A time in seconds: the whole seconds, and the nanoseconds over a thousand million.
pub open spec fn seconds(nanos: u64) -> Binary64 {
    Binary64::of_nat((nanos / 1_000_000_000) as nat).sum(
        Binary64::of_nat((nanos % 1_000_000_000) as nat).quotient(Binary64::of_nat(1_000_000_000)),
    )
}

/// The time that has gone by; none, where the clock seems to have gone back.
pub open spec fn since(from: u64, now: u64) -> u64 {
    if now >= from {
        (now - from) as u64
    } else {
        0
    }
}

impl TokenBucket {
    /// A bucket that is full.
    pub open spec fn full(burst: u32, rate: u32, now: u64) -> TokenBucket {
        TokenBucket {
            tokens: Binary64::of_nat(burst as nat),
            last_refill: now,
            capacity: Binary64::of_nat(burst as nat),
            refill_rate: Binary64::of_nat(rate as nat),
        }
    }

    /// The tokens at a later time: what the time brought, but no more than the capacity.
    pub open spec fn refilled(self, now: u64) -> Binary64 {
        self.tokens.sum(seconds(since(self.last_refill, now)).product(self.refill_rate)).lesser(
            self.capacity,
        )
    }

    /// There is a token for a request.
    pub open spec fn admits(self, now: u64) -> bool {
        !self.refilled(now).nan() && !Binary64::one().above(self.refilled(now))
    }

    /// The bucket after a request.
    pub open spec fn after(self, now: u64) -> TokenBucket {
        TokenBucket {
            tokens: if self.admits(now) {
                self.refilled(now).sum(Binary64::one().opposite())
            } else {
                self.refilled(now)
            },
            last_refill: now,
            ..self
        }
    }

    /// Takes a token, if there is one.
    pub fn consume_token(&mut self, now: u64) -> (r: bool)
        ensures
            r == old(self).admits(now),
            *final(self) == old(self).after(now),
    {
        let elapsed: u64 = if now >= self.last_refill {
            now - self.last_refill
        } else {
            0
        };
        let whole: Binary64 = Binary64::from_u64(elapsed / 1_000_000_000);
        let part: Binary64 = Binary64::from_u64(elapsed % 1_000_000_000).over(
            Binary64::from_u64(1_000_000_000),
        );
        let brought: Binary64 = whole.plus(part).times(self.refill_rate);
        let tokens: Binary64 = self.tokens.plus(brought).min(self.capacity);
        let one: Binary64 = Binary64 { bits: 0x3FF0_0000_0000_0000 };
        self.last_refill = now;
        if tokens.at_least(one) {
            self.tokens = tokens.minus(one);
            true
        } else {
            self.tokens = tokens;
            false
        }
    }
}

/// The name under which the requests of a client are counted.
pub open spec fn rate_key(extractor: Seq<char>, req: RequestModel, client_ip: Seq<char>) -> Seq<
    char,
> {
    if extractor == "header"@ {
        match http::field_text(req.fields, "x-rate-limit-key"@) {
            Some(key) => key,
            None => client_ip,
        }
    } else if extractor == "jwt_claim"@ {
        match http::field_text(req.fields, "authorization"@) {
            Some(auth) => if text::occurs_at(auth, "Bearer "@, 0) {
                auth.skip("Bearer "@.len() as int)
            } else {
                client_ip
            },
            None => client_ip,
        }
    } else {
        client_ip
    }
}

/// The bucket of a key: a full one, where there is none yet.
pub open spec fn bucket_of(
    c: ProxyConfig,
    buckets: Map<Seq<char>, TokenBucket>,
    key: Seq<char>,
    now: u64,
) -> TokenBucket {
    if buckets.contains_key(key) {
        buckets[key]
    } else {
        TokenBucket::full(
            c.security.rate_limiting.burst_size,
            c.security.rate_limiting.requests_per_second,
            now,
        )
    }
}

/// The reply to a request that comes too soon.
pub open spec fn too_many_requests() -> ReplyModel {
    http::reply_of(429, "Rate limit exceeded"@).with("retry-after"@, "60"@)
}

pub struct RateLimitingMiddleware {
    config: Arc<ProxyConfig>,
    buckets: Registry<TokenBucket>,
}

impl RateLimitingMiddleware {
    pub closed spec fn config(&self) -> ProxyConfig {
        *self.config
    }

    /// The buckets by key.
    pub closed spec fn view(&self) -> Map<Seq<char>, TokenBucket> {
        self.buckets@
    }

    pub closed spec fn well_formed(&self) -> bool {
        self.buckets.well_formed()
    }

    pub fn new(config: Arc<ProxyConfig>) -> (r: Self)
        ensures
            r.ready(),
            r.well_formed(),
            r.config() == *config,
            r@ == Map::<Seq<char>, TokenBucket>::empty(),
    {
        RateLimitingMiddleware { config, buckets: Registry::new() }
    }

    pub fn extract_key(&self, req: &RequestHead, client_ip: &str) -> (r: String)
        ensures
            r@ == rate_key(
                self.config().security.rate_limiting.key_extractor@,
                req@,
                client_ip@,
            ),
    {
        let extractor: &str = self.config.security.rate_limiting.key_extractor.as_str();
        if text::same(extractor, "header") {
            proof {
                reveal_strlit("x-rate-limit-key");
            }
            match http::get_field(&req.headers, "x-rate-limit-key") {
                Some(key) => key,
                None => client_ip.to_owned(),
            }
        } else if text::same(extractor, "jwt_claim") {
            proof {
                reveal_strlit("authorization");
            }
            match http::get_field(&req.headers, "authorization") {
                Some(auth) => match text::without_prefix(auth.as_str(), "Bearer ") {
                    Some(token) => token,
                    None => client_ip.to_owned(),
                },
                None => client_ip.to_owned(),
            }
        } else {
            client_ip.to_owned()
        }
    }

    /// Takes a token of the bucket of this key.
    pub fn can_proceed(&mut self, key: &str, now: u64) -> (r: bool)
        requires
            old(self).well_formed(),
        ensures
            final(self).well_formed(),
            final(self).config() == old(self).config(),
            r == bucket_of(old(self).config(), old(self)@, key@, now).admits(now),
            final(self)@ == old(self)@.insert(
                key@,
                bucket_of(old(self).config(), old(self)@, key@, now).after(now),
            ),
    {
        let mut bucket: TokenBucket = match self.buckets.get(key) {
            Some(bucket) => *bucket,
            None => TokenBucket {
                tokens: Binary64::from_u64(self.config.security.rate_limiting.burst_size as u64),
                last_refill: now,
                capacity: Binary64::from_u64(self.config.security.rate_limiting.burst_size as u64),
                refill_rate: Binary64::from_u64(
                    self.config.security.rate_limiting.requests_per_second as u64,
                ),
            },
        };
        let r: bool = bucket.consume_token(now);
        self.buckets.insert(key, bucket);
        r
    }
}

impl Middleware for RateLimitingMiddleware {
    open spec fn ready(&self) -> bool {
        self.well_formed()
    }

    open spec fn request_names(&self) -> nat {
        0
    }

    open spec fn reply_names(&self) -> nat {
        0
    }

    fn process_request(&mut self, req: &mut RequestHead, client_ip: &str, at: &Moment) -> (r:
        Result<(), Reply>)
        ensures
            final(self).config() == old(self).config(),
            final(req)@ == old(req)@,
            ({
                let key = rate_key(
                    old(self).config().security.rate_limiting.key_extractor@,
                    old(req)@,
                    client_ip@,
                );
                let bucket = bucket_of(old(self).config(), old(self)@, key, at.now);
                &&& r is Ok == bucket.admits(at.now)
                &&& final(self)@ == old(self)@.insert(key, bucket.after(at.now))
            }),
            r matches Err(reply) ==> reply@ == too_many_requests(),
    {
        let key: String = self.extract_key(req, client_ip);
        if !self.can_proceed(key.as_str(), at.now) {
            let mut reply: Reply = Reply::new(429, "Rate limit exceeded");
            proof {
                reveal_strlit("retry-after");
                reveal_strlit("60");
            }
            http::set_field(&mut reply.headers, "retry-after", "60");
            return Err(reply);
        }
        Ok(())
    }

    fn process_response(&mut self, resp: &mut Reply, client_ip: &str, now: u64) -> (r: Result<
        (),
        Reply,
    >)
        ensures
            r is Ok,
            final(self).config() == old(self).config(),
            final(self)@ == old(self)@,
            final(resp)@ == old(resp)@,
    {
        Ok(())
    }
}

// ---------------------------------------------------------------------------------
// Authentication
// ---------------------------------------------------------------------------------

/// A bearer token of more than ten bytes.
pub open spec fn has_jwt(auth: Seq<char>) -> bool {
    text::occurs_at(auth, "Bearer "@, 0) && text::byte_length(
        auth.skip("Bearer "@.len() as int),
    ) > 10
}

/// The request shows who it comes from, as the configured method wants it.
pub open spec fn is_authenticated(method: Seq<char>, req: RequestModel) -> bool {
    let auth = http::field_text(req.fields, "authorization"@);
    if method == "jwt"@ {
        auth is Some && has_jwt(auth->0)
    } else if method == "oauth2"@ {
        auth is Some && text::occurs_at(auth->0, "Bearer "@, 0)
    } else if method == "mtls"@ {
        req.fields.contains_key("x-client-cert"@)
    } else {
        true
    }
}

/// The reply to a request that does not show who it comes from.
pub open spec fn authentication_required() -> ReplyModel {
    http::reply_of(401, "Authentication required"@).with("www-authenticate"@, "Bearer"@)
}

pub struct AuthenticationMiddleware {
    config: Arc<ProxyConfig>,
}

impl AuthenticationMiddleware {
    pub closed spec fn config(&self) -> ProxyConfig {
        *self.config
    }

    pub fn new(config: Arc<ProxyConfig>) -> (r: Self)
        ensures
            r.config() == *config,
    {
        AuthenticationMiddleware { config }
    }

    /// Whether the token is long enough to be one; it is not looked into.
    pub fn validate_jwt(&self, token: &str) -> (r: bool)
        ensures
            r == (text::byte_length(token@) > 10),
    {
        token.len() > 10
    }

    pub fn validate_oauth2(&self, token: &str) -> (r: bool)
        ensures
            r == text::occurs_at(token@, "Bearer "@, 0),
    {
        text::starts_with(token, "Bearer ")
    }

    /// Whether the request shows who it comes from.
    pub fn authenticate(&self, req: &RequestHead) -> (r: bool)
        ensures
            r == is_authenticated(self.config().security.authentication.method@, req@),
    {
        let method: &str = self.config.security.authentication.method.as_str();
        proof {
            reveal_strlit("authorization");
            reveal_strlit("x-client-cert");
        }
        let auth_header: Option<String> = http::get_field(&req.headers, "authorization");
        if text::same(method, "jwt") {
            match auth_header {
                Some(auth) => match text::without_prefix(auth.as_str(), "Bearer ") {
                    Some(token) => self.validate_jwt(token.as_str()),
                    None => false,
                },
                None => false,
            }
        } else if text::same(method, "oauth2") {
            match auth_header {
                Some(auth) => self.validate_oauth2(auth.as_str()),
                None => false,
            }
        } else if text::same(method, "mtls") {
            http::has_field(&req.headers, "x-client-cert")
        } else {
            true
        }
    }
}

impl Middleware for AuthenticationMiddleware {
    open spec fn ready(&self) -> bool {
        true
    }

    open spec fn request_names(&self) -> nat {
        0
    }

    open spec fn reply_names(&self) -> nat {
        0
    }

    fn process_request(&mut self, req: &mut RequestHead, client_ip: &str, at: &Moment) -> (r:
        Result<(), Reply>)
        ensures
            final(self).config() == old(self).config(),
            final(req)@ == old(req)@,
            r is Ok == is_authenticated(
                old(self).config().security.authentication.method@,
                old(req)@,
            ),
            r matches Err(reply) ==> reply@ == authentication_required(),
    {
        if !self.authenticate(req) {
            let mut reply: Reply = Reply::new(401, "Authentication required");
            proof {
                reveal_strlit("www-authenticate");
                reveal_strlit("Bearer");
            }
            http::set_field(&mut reply.headers, "www-authenticate", "Bearer");
            return Err(reply);
        }
        Ok(())
    }

    fn process_response(&mut self, resp: &mut Reply, client_ip: &str, now: u64) -> (r: Result<
        (),
        Reply,
    >)
        ensures
            r is Ok,
            final(self).config() == old(self).config(),
            final(resp)@ == old(resp)@,
    {
        Ok(())
    }
}

// ---------------------------------------------------------------------------------
// Authorization
// ---------------------------------------------------------------------------------

/// Health and metrics are for everyone; anything else needs a policy that names the method
/// and the path, with a colon between them.
pub open spec fn is_authorized(policies: Seq<String>, req: RequestModel) -> bool {
    ||| req.path == "/health"@
    ||| req.path == "/metrics"@
    ||| exists|i: int|
        0 <= i < policies.len() && text::occurs(
            (#[trigger] policies[i])@,
            req.method + ":"@ + req.path,
        )
}

/// The reply to a request that no policy allows.
pub open spec fn access_denied() -> ReplyModel {
    http::reply_of(403, "Access denied"@)
}

pub struct AuthorizationMiddleware {
    config: Arc<ProxyConfig>,
}

impl AuthorizationMiddleware {
    pub closed spec fn config(&self) -> ProxyConfig {
        *self.config
    }

    pub fn new(config: Arc<ProxyConfig>) -> (r: Self)
        ensures
            r.config() == *config,
    {
        AuthorizationMiddleware { config }
    }

    pub fn check_authorization(&self, req: &RequestHead) -> (r: bool)
        ensures
            r == is_authorized(self.config().security.authorization.policies@, req@),
    {
        if text::same(req.path.as_str(), "/health") || text::same(req.path.as_str(), "/metrics") {
            return true;
        }
        let mut wanted: String = text::join(req.method.as_str(), ":");
        wanted.append(req.path.as_str());
        let policies: &Vec<String> = &self.config.security.authorization.policies;
        let mut i: usize = 0;
        while i < policies.len()
            invariant
                i <= policies@.len(),
                policies@ == self.config.security.authorization.policies@,
                wanted@ == req@.method + ":"@ + req@.path,
                forall|k: int| 0 <= k < i ==> !text::occurs((#[trigger] policies@[k])@, wanted@),
            decreases policies@.len() - i,
        {
            if text::contains(policies[i].as_str(), wanted.as_str()) {
                return true;
            }
            i = i + 1;
        }
        false
    }
}

impl Middleware for AuthorizationMiddleware {
    open spec fn ready(&self) -> bool {
        true
    }

    open spec fn request_names(&self) -> nat {
        0
    }

    open spec fn reply_names(&self) -> nat {
        0
    }

    fn process_request(&mut self, req: &mut RequestHead, client_ip: &str, at: &Moment) -> (r:
        Result<(), Reply>)
        ensures
            final(self).config() == old(self).config(),
            final(req)@ == old(req)@,
            r is Ok == is_authorized(
                old(self).config().security.authorization.policies@,
                old(req)@,
            ),
            r matches Err(reply) ==> reply@ == access_denied(),
    {
        if !self.check_authorization(req) {
            return Err(Reply::new(403, "Access denied"));
        }
        Ok(())
    }

    fn process_response(&mut self, resp: &mut Reply, client_ip: &str, now: u64) -> (r: Result<
        (),
        Reply,
    >)
        ensures
            r is Ok,
            final(self).config() == old(self).config(),
            final(resp)@ == old(resp)@,
    {
        Ok(())
    }
}

// ---------------------------------------------------------------------------------
// Logging
// ---------------------------------------------------------------------------------

/// The request with an identifier of its own.
pub open spec fn identified(req: RequestModel, id: Seq<char>) -> RequestModel {
    RequestModel { fields: req.fields.insert("x-request-id"@, seq![http::ascii(id)]), ..req }
}

pub struct LoggingMiddleware {
    config: Arc<ProxyConfig>,
}

impl LoggingMiddleware {
    pub closed spec fn config(&self) -> ProxyConfig {
        *self.config
    }

    pub fn new(config: Arc<ProxyConfig>) -> (r: Self)
        ensures
            r.config() == *config,
    {
        LoggingMiddleware { config }
    }
}

impl Middleware for LoggingMiddleware {
    open spec fn ready(&self) -> bool {
        true
    }

    open spec fn request_names(&self) -> nat {
        1
    }

    open spec fn reply_names(&self) -> nat {
        0
    }

    fn process_request(&mut self, req: &mut RequestHead, client_ip: &str, at: &Moment) -> (r:
        Result<(), Reply>)
        ensures
            r is Ok,
            final(self).config() == old(self).config(),
            final(req)@ == identified(old(req)@, at.request_id@),
    {
        proof {
            reveal_strlit("x-request-id");
        }
        http::set_field(&mut req.headers, "x-request-id", at.request_id.as_str());
        Ok(())
    }

    fn process_response(&mut self, resp: &mut Reply, client_ip: &str, now: u64) -> (r: Result<
        (),
        Reply,
    >)
        ensures
            r is Ok,
            final(self).config() == old(self).config(),
            final(resp)@ == old(resp)@,
    {
        Ok(())
    }
}

// ---------------------------------------------------------------------------------
// Metrics
// ---------------------------------------------------------------------------------

/// The latest of the values, as many as are kept.
pub open spec fn latest(values: Seq<u64>, keep: nat) -> Seq<u64> {
    if values.len() > keep {
        values.skip(1)
    } else {
        values
    }
}

pub struct MetricsMiddleware {
    config: Arc<ProxyConfig>,
    request_counter: u64,
    response_times: Vec<u64>,
}

impl MetricsMiddleware {
    pub closed spec fn config(&self) -> ProxyConfig {
        *self.config
    }

    /// How many requests came, counted up to the limit of the counter and round.
    pub closed spec fn requests(&self) -> u64 {
        self.request_counter
    }

    /// The latest response times, in nanoseconds.
    pub closed spec fn times(&self) -> Seq<u64> {
        self.response_times@
    }

    pub fn new(config: Arc<ProxyConfig>) -> (r: Self)
        ensures
            r.ready(),
            r.config() == *config,
            r.requests() == 0,
            r.times() == Seq::<u64>::empty(),
    {
        MetricsMiddleware { config, request_counter: 0, response_times: Vec::new() }
    }

    pub fn request_count(&self) -> (r: u64)
        ensures
            r == self.requests(),
    {
        self.request_counter
    }

    pub fn response_times(&self) -> (r: &Vec<u64>)
        ensures
            r@ == self.times(),
    {
        &self.response_times
    }
}

impl Middleware for MetricsMiddleware {
    open spec fn ready(&self) -> bool {
        self.times().len() <= KEPT_TIMES
    }

    open spec fn request_names(&self) -> nat {
        0
    }

    open spec fn reply_names(&self) -> nat {
        0
    }

    fn process_request(&mut self, req: &mut RequestHead, client_ip: &str, at: &Moment) -> (r:
        Result<(), Reply>)
        ensures
            r is Ok,
            final(self).config() == old(self).config(),
            final(self).requests() == old(self).requests().wrapping_add(1),
            final(self).times() == old(self).times(),
            final(req)@ == (RequestModel { started: Some(at.now), ..old(req)@ }),
    {
        req.started = Some(at.now);
        self.request_counter = self.request_counter.wrapping_add(1);
        Ok(())
    }

    fn process_response(&mut self, resp: &mut Reply, client_ip: &str, now: u64) -> (r: Result<
        (),
        Reply,
    >)
        ensures
            r is Ok,
            final(self).config() == old(self).config(),
            final(self).requests() == old(self).requests(),
            final(self).times() == with_time(old(self).times(), old(resp)@.started, now),
            final(resp)@ == old(resp)@,
    {
        match resp.started {
            Some(start_time) => {
                let elapsed: u64 = if now >= start_time {
                    now - start_time
                } else {
                    0
                };
                self.response_times.push(elapsed);
                if self.response_times.len() > KEPT_TIMES {
                    let ghost before = self.response_times@;
                    self.response_times.remove(0);
                    assert(self.response_times@ =~= before.skip(1));
                }
            },
            None => {},
        }
        Ok(())
    }
}

/// The response times after a reply; of a reply to a request that was not timed, nothing
/// is kept.
pub open spec fn with_time(times: Seq<u64>, started: Option<u64>, now: u64) -> Seq<u64> {
    match started {
        Some(start) => latest(times.push(since(start, now)), KEPT_TIMES as nat),
        None => times,
    }
}

// ---------------------------------------------------------------------------------
// CORS
// ---------------------------------------------------------------------------------

/// The reply to a preflight request.
pub open spec fn preflight_reply() -> ReplyModel {
    http::reply_of(200, ""@).with("access-control-allow-origin"@, "*"@).with(
        "access-control-allow-methods"@,
        "GET, POST, PUT, DELETE, OPTIONS"@,
    ).with("access-control-allow-headers"@, "Content-Type, Authorization"@).with(
        "access-control-max-age"@,
        "86400"@,
    )
}

/// A reply that other origins may read.
pub open spec fn shared(resp: ReplyModel) -> ReplyModel {
    resp.with("access-control-allow-origin"@, "*"@).with(
        "access-control-allow-credentials"@,
        "true"@,
    )
}

pub struct CorsMiddleware {
    config: Arc<ProxyConfig>,
}

impl CorsMiddleware {
    pub closed spec fn config(&self) -> ProxyConfig {
        *self.config
    }

    pub fn new(config: Arc<ProxyConfig>) -> (r: Self)
        ensures
            r.config() == *config,
    {
        CorsMiddleware { config }
    }
}

impl Middleware for CorsMiddleware {
    open spec fn ready(&self) -> bool {
        true
    }

    open spec fn request_names(&self) -> nat {
        0
    }

    open spec fn reply_names(&self) -> nat {
        2
    }

    fn process_request(&mut self, req: &mut RequestHead, client_ip: &str, at: &Moment) -> (r:
        Result<(), Reply>)
        ensures
            final(self).config() == old(self).config(),
            final(req)@ == old(req)@,
            r is Err == (old(req)@.method == "OPTIONS"@),
            r matches Err(reply) ==> reply@ == preflight_reply(),
    {
        if text::same(req.method.as_str(), "OPTIONS") {
            let mut reply: Reply = Reply::new(200, "");
            proof {
                reveal_strlit("access-control-allow-origin");
                reveal_strlit("*");
                reveal_strlit("access-control-allow-methods");
                reveal_strlit("GET, POST, PUT, DELETE, OPTIONS");
                reveal_strlit("access-control-allow-headers");
                reveal_strlit("Content-Type, Authorization");
                reveal_strlit("access-control-max-age");
                reveal_strlit("86400");
            }
            http::set_field(&mut reply.headers, "access-control-allow-origin", "*");
            http::set_field(
                &mut reply.headers,
                "access-control-allow-methods",
                "GET, POST, PUT, DELETE, OPTIONS",
            );
            http::set_field(
                &mut reply.headers,
                "access-control-allow-headers",
                "Content-Type, Authorization",
            );
            http::set_field(&mut reply.headers, "access-control-max-age", "86400");
            return Err(reply);
        }
        Ok(())
    }

    fn process_response(&mut self, resp: &mut Reply, client_ip: &str, now: u64) -> (r: Result<
        (),
        Reply,
    >)
        ensures
            r is Ok,
            final(self).config() == old(self).config(),
            final(resp)@ == shared(old(resp)@),
    {
        proof {
            reveal_strlit("access-control-allow-origin");
            reveal_strlit("*");
            reveal_strlit("access-control-allow-credentials");
            reveal_strlit("true");
        }
        http::set_field(&mut resp.headers, "access-control-allow-origin", "*");
        http::set_field(&mut resp.headers, "access-control-allow-credentials", "true");
        Ok(())
    }
}

// ---------------------------------------------------------------------------------
// The chain
// ---------------------------------------------------------------------------------

/// What the stages have gathered.
#[verifier::ext_equal]
pub struct ChainModel {
    /// The token buckets by key.
    pub buckets: Map<Seq<char>, TokenBucket>,
    /// How many requests the metrics counted.
    pub requests: u64,
    /// The latest response times.
    pub times: Seq<u64>,
}

/// What becomes of a request.
pub enum Verdict {
    Pass,
    TooManyRequests,
    AuthenticationRequired,
    AccessDenied,
    Preflight,
}

/// The bucket that a request takes its token of.
pub open spec fn own_bucket(
    c: ProxyConfig,
    s: ChainModel,
    req: RequestModel,
    client_ip: Seq<char>,
    now: u64,
) -> TokenBucket {
    bucket_of(
        c,
        s.buckets,
        rate_key(c.security.rate_limiting.key_extractor@, req, client_ip),
        now,
    )
}

/// What becomes of a request: the first stage that does not let it pass decides.
pub open spec fn judged(
    c: ProxyConfig,
    s: ChainModel,
    req: RequestModel,
    client_ip: Seq<char>,
    now: u64,
) -> Verdict {
    if c.security.rate_limiting.enabled && !own_bucket(c, s, req, client_ip, now).admits(now) {
        Verdict::TooManyRequests
    } else if c.security.authentication.enabled && !is_authenticated(
        c.security.authentication.method@,
        req,
    ) {
        Verdict::AuthenticationRequired
    } else if c.security.authorization.enabled && !is_authorized(
        c.security.authorization.policies@,
        req,
    ) {
        Verdict::AccessDenied
    } else if req.method == "OPTIONS"@ {
        Verdict::Preflight
    } else {
        Verdict::Pass
    }
}

/// The reply to a request that does not pass.
pub open spec fn verdict_reply(v: Verdict) -> ReplyModel {
    match v {
        Verdict::TooManyRequests => too_many_requests(),
        Verdict::AuthenticationRequired => authentication_required(),
        Verdict::AccessDenied => access_denied(),
        _ => preflight_reply(),
    }
}

/// The request went through logging and metrics.
pub open spec fn is_recorded(v: Verdict) -> bool {
    v is Pass || v is Preflight
}

/// The chain after a request.
pub open spec fn after_request(
    c: ProxyConfig,
    s: ChainModel,
    req: RequestModel,
    client_ip: Seq<char>,
    now: u64,
) -> ChainModel {
    ChainModel {
        buckets: if c.security.rate_limiting.enabled {
            s.buckets.insert(
                rate_key(c.security.rate_limiting.key_extractor@, req, client_ip),
                own_bucket(c, s, req, client_ip, now).after(now),
            )
        } else {
            s.buckets
        },
        requests: if c.observability.metrics.enabled && is_recorded(
            judged(c, s, req, client_ip, now),
        ) {
            s.requests.wrapping_add(1)
        } else {
            s.requests
        },
        times: s.times,
    }
}

/// The request as it leaves the chain.
pub open spec fn marked_request(
    c: ProxyConfig,
    req: RequestModel,
    v: Verdict,
    at: Moment,
) -> RequestModel {
    if is_recorded(v) {
        let known = identified(req, at.request_id@);
        if c.observability.metrics.enabled {
            RequestModel { started: Some(at.now), ..known }
        } else {
            known
        }
    } else {
        req
    }
}

/// The outcome of a request, as the chain hands it on.
pub open spec fn request_outcome(
    c: ProxyConfig,
    s: ChainModel,
    req: RequestModel,
    client_ip: Seq<char>,
    at: Moment,
    s_after: ChainModel,
    req_after: RequestModel,
    r: Result<(), Reply>,
) -> bool {
    let v = judged(c, s, req, client_ip, at.now);
    &&& r is Ok == v is Pass
    &&& r matches Err(reply) ==> reply@ == verdict_reply(v)
    &&& s_after == after_request(c, s, req, client_ip, at.now)
    &&& req_after == marked_request(c, req, v, at)
}

/// The stages in order: rate limiting, authentication, authorization, logging, metrics
/// and CORS. Replies go through them the other way.
pub struct MiddlewareChain {
    config: Arc<ProxyConfig>,
    rate_limiting: Option<RateLimitingMiddleware>,
    authentication: Option<AuthenticationMiddleware>,
    authorization: Option<AuthorizationMiddleware>,
    logging: LoggingMiddleware,
    metrics: Option<MetricsMiddleware>,
    cors: CorsMiddleware,
    clock: Clock,
}

impl MiddlewareChain {
    pub closed spec fn config(&self) -> ProxyConfig {
        *self.config
    }

    pub closed spec fn view(&self) -> ChainModel {
        ChainModel {
            buckets: match self.rate_limiting {
                Some(stage) => stage@,
                None => Map::empty(),
            },
            requests: match self.metrics {
                Some(stage) => stage.requests(),
                None => 0,
            },
            times: match self.metrics {
                Some(stage) => stage.times(),
                None => Seq::empty(),
            },
        }
    }

    /// The stages are those that the configuration asks for.
    pub closed spec fn well_formed(&self) -> bool {
        &&& self.rate_limiting is Some == self.config.security.rate_limiting.enabled
        &&& self.rate_limiting matches Some(stage) ==> stage.well_formed() && stage.config()
            == *self.config
        &&& self.authentication is Some == self.config.security.authentication.enabled
        &&& self.authentication matches Some(stage) ==> stage.config() == *self.config
        &&& self.authorization is Some == self.config.security.authorization.enabled
        &&& self.authorization matches Some(stage) ==> stage.config() == *self.config
        &&& self.metrics is Some == self.config.observability.metrics.enabled
        &&& self.metrics matches Some(stage) ==> stage.ready()
    }

    pub fn new(config: Arc<ProxyConfig>) -> (r: Self)
        ensures
            r.well_formed(),
            r.config() == *config,
            r@ == (ChainModel { buckets: Map::empty(), requests: 0, times: Seq::empty() }),
    {
        let rate_limiting: Option<RateLimitingMiddleware> =
            if config.security.rate_limiting.enabled {
            Some(RateLimitingMiddleware::new(config.clone()))
        } else {
            None
        };
        let authentication: Option<AuthenticationMiddleware> =
            if config.security.authentication.enabled {
            Some(AuthenticationMiddleware::new(config.clone()))
        } else {
            None
        };
        let authorization: Option<AuthorizationMiddleware> =
            if config.security.authorization.enabled {
            Some(AuthorizationMiddleware::new(config.clone()))
        } else {
            None
        };
        let metrics: Option<MetricsMiddleware> = if config.observability.metrics.enabled {
            Some(MetricsMiddleware::new(config.clone()))
        } else {
            None
        };
        MiddlewareChain {
            rate_limiting,
            authentication,
            authorization,
            logging: LoggingMiddleware::new(config.clone()),
            metrics,
            cors: CorsMiddleware::new(config.clone()),
            clock: Clock::new(),
            config,
        }
    }

    /// The latest response times, in nanoseconds.
    pub fn response_times(&self) -> (r: Vec<u64>)
        requires
            self.well_formed(),
        ensures
            r@ == self@.times,
            r@.len() <= KEPT_TIMES,
    {
        match &self.metrics {
            Some(stage) => {
                let r: Vec<u64> = stage.response_times().clone();
                assert(r@ =~= stage.times());
                r
            },
            None => Vec::new(),
        }
    }

    /// The time of the chain's clock, and a random identifier.
    pub fn moment(&self) -> (r: Moment)
        ensures
            is_random_uuid(r.request_id@),
            http::is_visible_text(r.request_id@),
    {
        let request_id: String = new_request_id();
        proof {
            lemma_uuid_is_visible(request_id@);
        }
        Moment { now: self.clock.now(), request_id }
    }

    /// The time of the chain's clock, of which nothing is claimed.
    pub fn now(&self) -> u64 {
        self.clock.now()
    }

    /// Lets a request pass, or answers it, at a time of the chain's clock and with a
    /// random identifier.
    pub fn process_request(&mut self, req: &mut RequestHead, client_ip: &str) -> (r: Result<
        (),
        Reply,
    >)
        requires
            old(self).well_formed(),
            has_room(old(req)@.fields, 1),
        ensures
            final(self).well_formed(),
            final(self).config() == old(self).config(),
            exists|at: Moment|
                is_random_uuid(at.request_id@) && #[trigger] request_outcome(
                    old(self).config(),
                    old(self)@,
                    old(req)@,
                    client_ip@,
                    at,
                    final(self)@,
                    final(req)@,
                    r,
                ),
    {
        let at: Moment = self.moment();
        let r: Result<(), Reply> = self.process_request_at(req, client_ip, &at);
        assert(request_outcome(
            old(self).config(),
            old(self)@,
            old(req)@,
            client_ip@,
            at,
            self@,
            req@,
            r,
        ));
        r
    }

    /// Lets a request pass, or answers it, where the time and the identifier are these.
    pub fn process_request_at(&mut self, req: &mut RequestHead, client_ip: &str, at: &Moment) -> (r:
        Result<(), Reply>)
        requires
            old(self).well_formed(),
            has_room(old(req)@.fields, 1),
            http::is_visible_text(at.request_id@),
        ensures
            final(self).well_formed(),
            final(self).config() == old(self).config(),
            request_outcome(
                old(self).config(),
                old(self)@,
                old(req)@,
                client_ip@,
                *at,
                final(self)@,
                final(req)@,
                r,
            ),
    {
        match &mut self.rate_limiting {
            Some(stage) => match stage.process_request(req, client_ip, at) {
                Ok(()) => {},
                Err(reply) => {
                    return Err(reply);
                },
            },
            None => {},
        }
        match &mut self.authentication {
            Some(stage) => match stage.process_request(req, client_ip, at) {
                Ok(()) => {},
                Err(reply) => {
                    return Err(reply);
                },
            },
            None => {},
        }
        match &mut self.authorization {
            Some(stage) => match stage.process_request(req, client_ip, at) {
                Ok(()) => {},
                Err(reply) => {
                    return Err(reply);
                },
            },
            None => {},
        }
        proof {
            http::lemma_room(
                req@.fields,
                "x-request-id"@,
                seq![http::ascii(at.request_id@)],
                1,
            );
        }
        match self.logging.process_request(req, client_ip, at) {
            Ok(()) => {},
            Err(reply) => {
                return Err(reply);
            },
        }
        match &mut self.metrics {
            Some(stage) => match stage.process_request(req, client_ip, at) {
                Ok(()) => {},
                Err(reply) => {
                    return Err(reply);
                },
            },
            None => {},
        }
        self.cors.process_request(req, client_ip, at)
    }

    /// Works on a reply, at the time of the chain's clock.
    pub fn process_response(&mut self, resp: &mut Reply, client_ip: &str) -> (r: Result<(), Reply>)
        requires
            old(self).well_formed(),
            has_room(old(resp)@.fields, 2),
        ensures
            r is Ok,
            final(self).well_formed(),
            final(self).config() == old(self).config(),
            final(resp)@ == shared(old(resp)@),
            exists|now: u64|
                final(self)@ == #[trigger] after_reply(
                    old(self).config(),
                    old(self)@,
                    old(resp)@.started,
                    now,
                ),
    {
        let now: u64 = self.now();
        self.process_response_at(resp, client_ip, now)
    }

    /// Works on a reply at this time.
    pub fn process_response_at(&mut self, resp: &mut Reply, client_ip: &str, now: u64) -> (r:
        Result<(), Reply>)
        requires
            old(self).well_formed(),
            has_room(old(resp)@.fields, 2),
        ensures
            r is Ok,
            final(self).well_formed(),
            final(self).config() == old(self).config(),
            final(resp)@ == shared(old(resp)@),
            final(self)@ == after_reply(
                old(self).config(),
                old(self)@,
                old(resp)@.started,
                now,
            ),
    {
        proof {
            http::lemma_room(resp@.fields, "access-control-allow-origin"@, seq![http::ascii("*"@)], 2);
            http::lemma_room(
                resp@.with("access-control-allow-origin"@, "*"@).fields,
                "access-control-allow-credentials"@,
                seq![http::ascii("true"@)],
                1,
            );
        }
        match self.cors.process_response(resp, client_ip, now) {
            Ok(()) => {},
            Err(reply) => {
                return Err(reply);
            },
        }
        match &mut self.metrics {
            Some(stage) => match stage.process_response(resp, client_ip, now) {
                Ok(()) => {},
                Err(reply) => {
                    return Err(reply);
                },
            },
            None => {},
        }
        match self.logging.process_response(resp, client_ip, now) {
            Ok(()) => {},
            Err(reply) => {
                return Err(reply);
            },
        }
        match &mut self.authorization {
            Some(stage) => match stage.process_response(resp, client_ip, now) {
                Ok(()) => {},
                Err(reply) => {
                    return Err(reply);
                },
            },
            None => {},
        }
        match &mut self.authentication {
            Some(stage) => match stage.process_response(resp, client_ip, now) {
                Ok(()) => {},
                Err(reply) => {
                    return Err(reply);
                },
            },
            None => {},
        }
        match &mut self.rate_limiting {
            Some(stage) => match stage.process_response(resp, client_ip, now) {
                Ok(()) => {},
                Err(reply) => {
                    return Err(reply);
                },
            },
            None => {},
        }
        Ok(())
    }
}

/// The chain after a reply.
pub open spec fn after_reply(
    c: ProxyConfig,
    s: ChainModel,
    started: Option<u64>,
    now: u64,
) -> ChainModel {
    if c.observability.metrics.enabled {
        ChainModel { times: with_time(s.times, started, now), ..s }
    } else {
        s
    }
}

proof fn lemma_uuid_is_visible(id: Seq<char>)
    requires
        is_random_uuid(id),
    ensures
        http::is_visible_text(id),
{
    assert forall|i: int| 0 <= i < id.len() implies http::is_visible(#[trigger] id[i]) by {
        if i != 8 && i != 13 && i != 18 && i != 23 {
            assert(is_hex(id[i]));
        }
    }
}

// ---------------------------------------------------------------------------------
// Laws
// ---------------------------------------------------------------------------------

impl TokenBucket {
    /// Numbers from zero up, and no more tokens than the bucket holds.
    pub open spec fn sound(self) -> bool {
        &&& self.tokens.finite() && !self.tokens.negative()
        &&& self.capacity.finite() && !self.capacity.negative()
        &&& self.refill_rate.finite() && !self.refill_rate.negative()
        &&& !self.tokens.above(self.capacity)
    }

    /// The bucket after some requests at one time.
    pub open spec fn after_each(self, now: u64, requests: nat) -> TokenBucket
        decreases requests,
    {
        if requests == 0 {
            self
        } else {
            self.after_each(now, (requests - 1) as nat).after(now)
        }
    }
}

/// The nanoseconds of a time come to a finite number of seconds.
pub(crate) proof fn lemma_seconds(nanos: u64)
    ensures
        !seconds(nanos).nan(),
        !seconds(nanos).negative(),
        seconds(nanos).finite(),
        nanos == 0 ==> seconds(nanos).bits == 0,
{
    let whole = Binary64::of_nat((nanos / 1_000_000_000) as nat);
    let nano = Binary64::of_nat((nanos % 1_000_000_000) as nat);
    let scale = Binary64::of_nat(1_000_000_000);
    binary64::whole_numbers_are_exact((nanos / 1_000_000_000) as nat);
    binary64::whole_numbers_are_exact((nanos % 1_000_000_000) as nat);
    binary64::whole_numbers_are_exact(1_000_000_000);
    let w = (nanos / 1_000_000_000) as nat;
    let unit = vstd::arithmetic::power2::pow2(binary64::UNIT_PLACES as nat);
    vstd::arithmetic::power2::lemma_pow2_pos(binary64::UNIT_PLACES as nat);
    binary64::order_is_that_of_values(nano, scale);
    assert((nanos % 1_000_000_000) * unit <= 1_000_000_000 * unit) by (nonlinear_arith)
        requires
            nanos % 1_000_000_000 <= 1_000_000_000,
            unit > 0,
    ;
    if scale.zero() {
        assert(1_000_000_000 * unit > 0) by (nonlinear_arith)
            requires
                unit > 0,
        ;
    }
    binary64::shares_are_at_most_one(nano, scale);
    let part = nano.quotient(scale);
    binary64::one_is_one();
    binary64::whole_numbers_are_exact(1);
    binary64::order_is_that_of_values(part, Binary64::one());
    binary64::whole_numbers_are_exact(w + 1);
    assert((w + 1) * unit == w * unit + unit) by (nonlinear_arith);
    let s = whole.value() + part.value();
    if s > 0 {
        binary64::rounding_keeps_order(s as nat, (w + 1) * unit, 1);
    }
    if nanos == 0 {
        binary64::zero_is_zero();
        binary64::zero_stays_zero(scale);
        binary64::adding_zero_changes_nothing(whole);
    }
}

/// A bucket starts sound.
pub proof fn full_buckets_are_sound(burst: u32, rate: u32, now: u64)
    ensures
        TokenBucket::full(burst, rate, now).sound(),
{
    binary64::whole_numbers_are_exact(burst as nat);
    binary64::whole_numbers_are_exact(rate as nat);
}

/// However requests come, a bucket never holds more tokens than its capacity, nor fewer
/// than none.
pub proof fn tokens_stay_within_capacity(b: TokenBucket, now: u64)
    requires
        b.sound(),
    ensures
        b.after(now).sound(),
        b.after(now).capacity == b.capacity,
        b.after(now).refill_rate == b.refill_rate,
{
    let elapsed = seconds(since(b.last_refill, now));
    lemma_seconds(since(b.last_refill, now));
    binary64::no_sign_stays_no_sign(elapsed, b.refill_rate);
    binary64::no_sign_stays_no_sign(b.tokens, elapsed.product(b.refill_rate));
    let refilled = b.refilled(now);
    assert(refilled.finite() && !refilled.negative() && !refilled.above(b.capacity));
    if b.admits(now) {
        binary64::taking_one_lowers(refilled);
    }
}

/// Of requests that come at one time, a full bucket admits as many as the burst size says,
/// and no more.
pub proof fn a_full_bucket_admits_a_burst(burst: u32, rate: u32, now: u64, requests: nat)
    ensures
        TokenBucket::full(burst, rate, now).after_each(now, requests).admits(now) <==> requests
            < burst,
{
    lemma_tokens_after(burst, rate, now, requests);
    let left = if requests < burst {
        (burst - requests) as nat
    } else {
        0
    };
    lemma_admits_at_once(
        TokenBucket::full(burst, rate, now).after_each(now, requests),
        burst,
        rate,
        now,
        left,
    );
}

/// With no time gone by, a bucket admits if a whole token is left.
proof fn lemma_admits_at_once(b: TokenBucket, burst: u32, rate: u32, now: u64, left: nat)
    requires
        left <= burst,
        b == (TokenBucket {
            tokens: Binary64::of_nat(left),
            ..TokenBucket::full(burst, rate, now)
        }),
    ensures
        b.refilled(now) == b.tokens,
        b.admits(now) <==> left >= 1,
{
    let unit = vstd::arithmetic::power2::pow2(binary64::UNIT_PLACES as nat);
    vstd::arithmetic::power2::lemma_pow2_pos(binary64::UNIT_PLACES as nat);
    lemma_seconds(0);
    binary64::whole_numbers_are_exact(burst as nat);
    binary64::whole_numbers_are_exact(rate as nat);
    binary64::whole_numbers_are_exact(left);
    binary64::zero_stays_zero(b.refill_rate);
    binary64::adding_zero_changes_nothing(b.tokens);
    binary64::order_is_that_of_values(b.tokens, b.capacity);
    assert(left * unit <= burst * unit) by (nonlinear_arith)
        requires
            left <= burst,
            unit > 0,
    ;
    binary64::one_is_one();
    binary64::whole_numbers_are_exact(1);
    binary64::order_is_that_of_values(Binary64::one(), b.tokens);
    assert(unit > left * unit <==> left == 0) by (nonlinear_arith)
        requires
            unit > 0,
    ;
}

proof fn lemma_tokens_after(burst: u32, rate: u32, now: u64, requests: nat)
    ensures
        TokenBucket::full(burst, rate, now).after_each(now, requests) == (TokenBucket {
            tokens: Binary64::of_nat(
                if requests < burst {
                    (burst - requests) as nat
                } else {
                    0
                },
            ),
            ..TokenBucket::full(burst, rate, now)
        }),
    decreases requests,
{
    if requests > 0 {
        let before = (requests - 1) as nat;
        lemma_tokens_after(burst, rate, now, before);
        let left = if before < burst {
            (burst - before) as nat
        } else {
            0
        };
        let b = TokenBucket::full(burst, rate, now).after_each(now, before);
        lemma_admits_at_once(b, burst, rate, now, left);
        if left >= 1 {
            binary64::whole_numbers_count_down(left);
        }
    }
}

/// A bucket with whole tokens that nobody asks for some seconds gets back as many tokens a
/// second as the rate says, up to the burst size.
pub proof fn buckets_fill_by_the_second(
    burst: u32,
    rate: u32,
    left: nat,
    from: u64,
    elapsed: u64,
)
    requires
        left <= burst,
        from + elapsed * 1_000_000_000 <= u64::MAX,
    ensures
        ({
            let b = TokenBucket {
                tokens: Binary64::of_nat(left),
                ..TokenBucket::full(burst, rate, from)
            };
            let now = (from + elapsed * 1_000_000_000) as u64;
            b.refilled(now) == Binary64::of_nat(
                if left + elapsed * rate < burst {
                    (left + elapsed * rate) as nat
                } else {
                    burst as nat
                },
            )
        }),
{
    let nanos = (elapsed * 1_000_000_000) as u64;
    let brought = (elapsed * rate) as nat;
    let tokens = Binary64::of_nat(left);
    let capacity = Binary64::of_nat(burst as nat);
    assert(0 <= elapsed * rate <= 0x1_0000_0000 * 0x1_0000_0000 * 8) by (nonlinear_arith)
        requires
            0 <= elapsed <= 0x8_0000_0000,
            0 <= rate <= 0x1_0000_0000,
    ;
    lemma_whole_seconds(elapsed);
    binary64::whole_numbers_add_and_multiply(elapsed as nat, rate as nat);
    binary64::whole_numbers_are_finite(brought);
    binary64::whole_numbers_are_finite(burst as nat);
    binary64::whole_numbers_are_finite(left);
    if brought <= 0x20_0000_0000_0000 {
        binary64::whole_numbers_add_and_multiply(left, brought);
        binary64::whole_numbers_are_finite(left + brought);
        if left + brought < burst {
            binary64::whole_numbers_keep_order(left + brought, burst as nat);
        } else {
            binary64::whole_numbers_keep_order(burst as nat, left + brought);
            lemma_not_above_either_way(Binary64::of_nat(left + brought), capacity);
        }
    } else {
        let sum = tokens.sum(Binary64::of_nat(brought));
        binary64::whole_numbers_keep_order(burst as nat, brought);
        binary64::adding_does_not_lower(tokens, Binary64::of_nat(brought));
        binary64::no_sign_stays_no_sign(tokens, Binary64::of_nat(brought));
        lemma_not_above_either_way(sum, capacity);
    }
}

/// The lesser of two numbers without a sign, of which the first is no less, is the second.
proof fn lemma_not_above_either_way(x: Binary64, y: Binary64)
    requires
        !x.nan(),
        !x.negative(),
        !y.nan(),
        !y.negative(),
        !y.above(x),
    ensures
        x.lesser(y) == y,
{
}

proof fn lemma_whole_seconds(elapsed: u64)
    requires
        elapsed * 1_000_000_000 <= u64::MAX,
    ensures
        seconds((elapsed * 1_000_000_000) as u64) == Binary64::of_nat(elapsed as nat),
{
    let scale = Binary64::of_nat(1_000_000_000);
    binary64::zero_is_zero();
    binary64::whole_numbers_are_finite(1_000_000_000);
    binary64::zero_stays_zero(scale);
    binary64::whole_numbers_are_exact(elapsed as nat);
    binary64::adding_zero_changes_nothing(Binary64::of_nat(elapsed as nat));
}

/// A request that is refused is not marked and not counted.
pub proof fn refused_requests_are_left_alone(
    c: ProxyConfig,
    s: ChainModel,
    req: RequestModel,
    client_ip: Seq<char>,
    at: Moment,
)
    requires
        !is_recorded(judged(c, s, req, client_ip, at.now)),
    ensures
        marked_request(c, req, judged(c, s, req, client_ip, at.now), at) == req,
        after_request(c, s, req, client_ip, at.now).requests == s.requests,
        after_request(c, s, req, client_ip, at.now).times == s.times,
{
}

/// Requests are limited by key: one client's requests leave another's bucket as it is.
pub proof fn clients_are_limited_apart(
    c: ProxyConfig,
    s: ChainModel,
    req: RequestModel,
    client_ip: Seq<char>,
    now: u64,
    key: Seq<char>,
)
    requires
        key != rate_key(c.security.rate_limiting.key_extractor@, req, client_ip),
    ensures
        after_request(c, s, req, client_ip, now).buckets.contains_key(key)
            == s.buckets.contains_key(key),
        s.buckets.contains_key(key) ==> after_request(c, s, req, client_ip, now).buckets[key]
            == s.buckets[key],
{
}

/// No more response times are kept than there is room for.
pub proof fn kept_times_are_limited(times: Seq<u64>, started: Option<u64>, now: u64)
    requires
        times.len() <= KEPT_TIMES,
    ensures
        with_time(times, started, now).len() <= KEPT_TIMES,
{
}

/// A reply goes on with the two fields for other origins set, and is otherwise as it was.
pub proof fn replies_are_shared_as_they_are(resp: ReplyModel, name: Seq<char>)
    ensures
        shared(resp).status == resp.status,
        shared(resp).body == resp.body,
        shared(resp).started == resp.started,
        shared(resp).fields["access-control-allow-origin"@] == seq![http::ascii("*"@)],
        shared(resp).fields["access-control-allow-credentials"@] == seq![http::ascii("true"@)],
        shared(resp).fields.contains_key("access-control-allow-origin"@),
        shared(resp).fields.contains_key("access-control-allow-credentials"@),
        name != "access-control-allow-origin"@ && name != "access-control-allow-credentials"@
            ==> shared(resp).fields.contains_key(name) == resp.fields.contains_key(name) && shared(
            resp,
        ).fields[name] == resp.fields[name],
{
    reveal_strlit("access-control-allow-origin");
    reveal_strlit("access-control-allow-credentials");
    assert("access-control-allow-origin"@.len() != "access-control-allow-credentials"@.len());
}

/// A request that is let pass, or is a preflight, leaves with its identifier, and with its time
/// where metrics are on; its other fields, its method and its path are as they were.
pub proof fn requests_pass_as_they_are(
    c: ProxyConfig,
    req: RequestModel,
    v: Verdict,
    at: Moment,
    name: Seq<char>,
)
    ensures
        ({
            let after = marked_request(c, req, v, at);
            &&& after.method == req.method
            &&& after.path == req.path
            &&& after.path_and_query == req.path_and_query
            &&& name != "x-request-id"@ ==> after.fields.contains_key(name)
                == req.fields.contains_key(name) && after.fields[name] == req.fields[name]
            &&& v is Pass || v is Preflight ==> after.fields["x-request-id"@] == seq![
                http::ascii(at.request_id@),
            ]
            &&& (v is Pass || v is Preflight) && c.observability.metrics.enabled ==> after.started
                == Some(at.now)
            &&& !c.observability.metrics.enabled ==> after.started == req.started
            &&& !(v is Pass || v is Preflight) ==> after == req
        }),
{
}

/// What each stage says of a request decides in order: a request is refused by the first stage
/// that is on and objects, whatever the later ones would say, and passes if none does. The
/// limit on requests asks the bucket of the key, or a full one where the key is new.
pub proof fn the_first_stage_that_objects_decides(
    c: ProxyConfig,
    s: ChainModel,
    req: RequestModel,
    client_ip: Seq<char>,
    now: u64,
)
    ensures
        ({
            let key = rate_key(c.security.rate_limiting.key_extractor@, req, client_ip);
            let admitted = if s.buckets.contains_key(key) {
                s.buckets[key].admits(now)
            } else {
                TokenBucket::full(
                    c.security.rate_limiting.burst_size,
                    c.security.rate_limiting.requests_per_second,
                    now,
                ).admits(now)
            };
            let limited = c.security.rate_limiting.enabled && !admitted;
            let unknown = c.security.authentication.enabled && !is_authenticated(
                c.security.authentication.method@,
                req,
            );
            let denied = c.security.authorization.enabled && !is_authorized(
                c.security.authorization.policies@,
                req,
            );
            let v = judged(c, s, req, client_ip, now);
            &&& limited <==> v is TooManyRequests
            &&& unknown && !limited <==> v is AuthenticationRequired
            &&& denied && !unknown && !limited <==> v is AccessDenied
            &&& req.method == "OPTIONS"@ && !denied && !unknown && !limited <==> v is Preflight
            &&& req.method != "OPTIONS"@ && !denied && !unknown && !limited <==> v is Pass
            &&& v is TooManyRequests ==> verdict_reply(v).status == 429
            &&& v is AuthenticationRequired ==> verdict_reply(v).status == 401
            &&& v is AccessDenied ==> verdict_reply(v).status == 403
            &&& v is Preflight ==> verdict_reply(v).status == 200
        }),
{
}

/// A request takes its token, and a stage counts it, whatever the later stages say: the bucket
/// of the key is as it is after the request, whether that was let pass or not; the metrics count
/// it by one exactly if it passed or was a preflight. Where requests are not limited, no bucket
/// changes.
pub proof fn requests_take_their_tokens(
    c: ProxyConfig,
    s: ChainModel,
    req: RequestModel,
    client_ip: Seq<char>,
    now: u64,
)
    requires
        s.requests < u64::MAX,
    ensures
        ({
            let key = rate_key(c.security.rate_limiting.key_extractor@, req, client_ip);
            let v = judged(c, s, req, client_ip, now);
            let after = after_request(c, s, req, client_ip, now);
            &&& c.security.rate_limiting.enabled && s.buckets.contains_key(key) ==> after.buckets
                == s.buckets.insert(key, s.buckets[key].after(now))
            &&& c.security.rate_limiting.enabled && !s.buckets.contains_key(key) ==> after.buckets
                == s.buckets.insert(
                key,
                TokenBucket::full(
                    c.security.rate_limiting.burst_size,
                    c.security.rate_limiting.requests_per_second,
                    now,
                ).after(now),
            )
            &&& !c.security.rate_limiting.enabled ==> after.buckets == s.buckets
            &&& c.observability.metrics.enabled && (v is Pass || v is Preflight) ==> after.requests
                == s.requests + 1
            &&& !c.observability.metrics.enabled || !(v is Pass || v is Preflight)
                ==> after.requests == s.requests
            &&& after.times == s.times
        }),
{
}

/// Requests are limited by what the configuration says: by the header where it is there and
/// meant, by the bearer token where there is one and it is meant, and by the address of the
/// client in every other case.
pub proof fn keys_are_told_apart(
    extractor: Seq<char>,
    req: RequestModel,
    client_ip: Seq<char>,
    key: Seq<char>,
)
    requires
        http::is_visible_text(key),
    ensures
        extractor != "header"@ && extractor != "jwt_claim"@ ==> rate_key(extractor, req, client_ip)
            == client_ip,
        extractor == "header"@ && req.fields.contains_key("x-rate-limit-key"@)
            && req.fields["x-rate-limit-key"@] == seq![http::ascii(key)] ==> rate_key(
            extractor,
            req,
            client_ip,
        ) == key,
        extractor == "header"@ && !req.fields.contains_key("x-rate-limit-key"@) ==> rate_key(
            extractor,
            req,
            client_ip,
        ) == client_ip,
        extractor == "jwt_claim"@ && req.fields.contains_key("authorization"@)
            && req.fields["authorization"@] == seq![http::ascii("Bearer "@ + key)] ==> rate_key(
            extractor,
            req,
            client_ip,
        ) == key,
        extractor == "jwt_claim"@ && !req.fields.contains_key("authorization"@) ==> rate_key(
            extractor,
            req,
            client_ip,
        ) == client_ip,
{
    reveal_strlit("header");
    reveal_strlit("jwt_claim");
    assert("header"@.len() != "jwt_claim"@.len());
    http::texts_are_shown_again(key);
    lemma_bearer(key);
    http::texts_are_shown_again("Bearer "@ + key);
}

proof fn lemma_bearer(token: Seq<char>)
    requires
        http::is_visible_text(token),
    ensures
        http::is_visible_text("Bearer "@ + token),
        text::occurs_at("Bearer "@ + token, "Bearer "@, 0),
        ("Bearer "@ + token).skip("Bearer "@.len() as int) == token,
{
    reveal_strlit("Bearer ");
    let whole = "Bearer "@ + token;
    assert forall|i: int| 0 <= i < whole.len() implies http::is_visible(#[trigger] whole[i]) by {
        if i >= 7 {
            assert(http::is_visible(token[i - 7]));
        }
    }
    text::parts_stand_anywhere(Seq::empty(), "Bearer "@, token);
    assert(whole.skip("Bearer "@.len() as int) =~= token);
}

/// A request shows who it comes from: by a bearer token of more than ten bytes, by any bearer
/// token, or by a certificate, as the method wants it. Without the field that is wanted it does
/// not; any other method wants nothing.
pub proof fn who_is_let_in(method: Seq<char>, req: RequestModel, token: Seq<char>)
    requires
        http::is_visible_text(token),
    ensures
        ({
            let bearer = req.fields.contains_key("authorization"@) && req.fields["authorization"@]
                == seq![http::ascii("Bearer "@ + token)];
            &&& method == "jwt"@ && bearer ==> (is_authenticated(method, req)
                <==> text::byte_length(token) > 10)
            &&& method == "oauth2"@ && bearer ==> is_authenticated(method, req)
            &&& (method == "jwt"@ || method == "oauth2"@) && !req.fields.contains_key(
                "authorization"@,
            ) ==> !is_authenticated(method, req)
            &&& method == "mtls"@ ==> (is_authenticated(method, req) <==> req.fields.contains_key(
                "x-client-cert"@,
            ))
            &&& method != "jwt"@ && method != "oauth2"@ && method != "mtls"@ ==> is_authenticated(
                method,
                req,
            )
        }),
{
    reveal_strlit("jwt");
    reveal_strlit("oauth2");
    reveal_strlit("mtls");
    assert("jwt"@.len() == 3 && "oauth2"@.len() == 6 && "mtls"@.len() == 4);
    lemma_bearer(token);
    http::texts_are_shown_again("Bearer "@ + token);
}

/// A value that does not start as a bearer token does lets nobody in who has to show one.
pub proof fn other_schemes_are_not_let_in(method: Seq<char>, req: RequestModel, value: Seq<char>)
    requires
        http::is_visible_text(value),
        forall|token: Seq<char>| value != #[trigger] ("Bearer "@ + token),
        req.fields.contains_key("authorization"@),
        req.fields["authorization"@] == seq![http::ascii(value)],
        method == "jwt"@ || method == "oauth2"@,
    ensures
        !is_authenticated(method, req),
{
    reveal_strlit("jwt");
    reveal_strlit("oauth2");
    assert("jwt"@.len() == 3 && "oauth2"@.len() == 6);
    http::texts_are_shown_again(value);
    if text::occurs_at(value, "Bearer "@, 0) {
        let n = "Bearer "@.len() as int;
        assert(value =~= "Bearer "@ + value.skip(n));
    }
}

/// A request is allowed by any policy, wherever in the list, in which its method and path stand
/// with a colon between them, wherever in the text; health and metrics are for everyone; and
/// nothing else is allowed.
pub proof fn policies_allow_what_they_name(
    policies: Seq<String>,
    i: int,
    req: RequestModel,
    before: Seq<char>,
    after: Seq<char>,
)
    ensures
        req.path == "/health"@ || req.path == "/metrics"@ ==> is_authorized(policies, req),
        0 <= i < policies.len() && policies[i]@ == before + (req.method + ":"@ + req.path) + after
            ==> is_authorized(policies, req),
        req.path != "/health"@ && req.path != "/metrics"@ && (forall|k: int|
            0 <= k < policies.len() ==> text::stands_nowhere(
                (#[trigger] policies[k])@,
                req.method + ":"@ + req.path,
            )) ==> !is_authorized(policies, req),
{
    let wanted = req.method + ":"@ + req.path;
    text::parts_stand_anywhere(before, wanted, after);
    if 0 <= i < policies.len() && policies[i]@ == before + wanted + after {
        assert(text::occurs(policies[i]@, wanted));
    }
    assert forall|k: int| 0 <= k < policies.len() implies (text::occurs(
        (#[trigger] policies[k])@,
        wanted,
    ) <==> !text::stands_nowhere(policies[k]@, wanted)) by {
        text::what_stands_nowhere_is_no_part(policies[k]@, wanted);
    }
}

/// The time that is kept of a reply is the time since its request came, none where the clock
/// went back; it is the latest one, and of those before only the oldest is given up, when there
/// is no room.
pub proof fn the_latest_times_are_kept(times: Seq<u64>, start: u64, now: u64, i: int)
    requires
        times.len() <= 1000,
    ensures
        ({
            let kept = with_time(times, Some(start), now);
            &&& kept.len() > 0
            &&& start <= now ==> kept.last() == now - start
            &&& start > now ==> kept.last() == 0
            &&& times.len() < 1000 ==> kept.len() == times.len() + 1 && (0 <= i < times.len()
                ==> kept[i] == times[i])
            &&& times.len() == 1000 ==> kept.len() == 1000 && (1 <= i < times.len() ==> kept[i - 1]
                == times[i])
        }),
        with_time(times, None, now) == times,
{
}

/// A reply changes the response times that are kept, where metrics are on, and nothing else of
/// the chain.
pub proof fn replies_change_the_times_only(
    c: ProxyConfig,
    s: ChainModel,
    started: Option<u64>,
    now: u64,
)
    ensures
        after_reply(c, s, started, now).buckets == s.buckets,
        after_reply(c, s, started, now).requests == s.requests,
        !c.observability.metrics.enabled || started is None ==> after_reply(c, s, started, now)
            == s,
        c.observability.metrics.enabled && started is Some ==> after_reply(
            c,
            s,
            started,
            now,
        ).times.last() == (if started->0 <= now {
            now - started->0
        } else {
            0
        }),
{
}

/// The chain hands on what its stages decided: a request passes exactly if none of them
/// objected, and otherwise it is answered as the stage that did wants it.
pub proof fn the_chain_hands_on_what_was_decided(
    c: ProxyConfig,
    s: ChainModel,
    req: RequestModel,
    client_ip: Seq<char>,
    at: Moment,
    s_after: ChainModel,
    req_after: RequestModel,
    r: Result<(), Reply>,
)
    requires
        request_outcome(c, s, req, client_ip, at, s_after, req_after, r),
    ensures
        ({
            let v = judged(c, s, req, client_ip, at.now);
            &&& r is Ok <==> v is Pass
            &&& v is TooManyRequests ==> r->Err_0@.status == 429 && r->Err_0@.body
                == "Rate limit exceeded"@
            &&& v is AuthenticationRequired ==> r->Err_0@.status == 401 && r->Err_0@.body
                == "Authentication required"@
            &&& v is AccessDenied ==> r->Err_0@.status == 403 && r->Err_0@.body == "Access denied"@
            &&& v is Preflight ==> r->Err_0@.status == 200 && r->Err_0@.body == ""@
            &&& s_after == after_request(c, s, req, client_ip, at.now)
            &&& req_after == marked_request(c, req, v, at)
        }),
{
}

/// A value of a header that cannot be shown, or is no bearer token where one is meant, names no
/// key: the address of the client does.
pub proof fn other_values_name_no_key(
    extractor: Seq<char>,
    req: RequestModel,
    client_ip: Seq<char>,
    value: Seq<char>,
    bytes: Seq<u8>,
    i: int,
)
    requires
        0 <= i < bytes.len(),
        bytes[i] < 32 && bytes[i] != 9 || bytes[i] >= 127,
    ensures
        extractor == "header"@ && req.fields.contains_key("x-rate-limit-key"@)
            && req.fields["x-rate-limit-key"@] == seq![bytes] ==> rate_key(
            extractor,
            req,
            client_ip,
        ) == client_ip,
        extractor == "jwt_claim"@ && req.fields.contains_key("authorization"@)
            && req.fields["authorization"@] == seq![bytes] ==> rate_key(extractor, req, client_ip)
            == client_ip,
        extractor == "jwt_claim"@ && http::is_visible_text(value) && req.fields.contains_key(
            "authorization"@,
        ) && req.fields["authorization"@] == seq![http::ascii(value)] && (forall|token: Seq<char>|
            value != #[trigger] ("Bearer "@ + token)) ==> rate_key(extractor, req, client_ip)
            == client_ip,
        req.fields.contains_key("authorization"@) && req.fields["authorization"@] == seq![bytes]
            ==> !is_authenticated("jwt"@, req) && !is_authenticated("oauth2"@, req),
{
    reveal_strlit("header");
    reveal_strlit("jwt_claim");
    assert("header"@.len() != "jwt_claim"@.len());
    reveal_strlit("jwt");
    reveal_strlit("oauth2");
    assert("jwt"@.len() == 3 && "oauth2"@.len() == 6);
    http::other_values_are_not_shown(bytes, i);
    if http::is_visible_text(value) {
        http::texts_are_shown_again(value);
        if text::occurs_at(value, "Bearer "@, 0) {
            let n = "Bearer "@.len() as int;
            assert(value =~= "Bearer "@ + value.skip(n));
        }
    }
}

} // verus!

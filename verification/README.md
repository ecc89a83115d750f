# Sidecar proxy

A sidecar proxy for HTTP services, with its rules proved in Verus.

## What a request goes through

1. The request comes in, on one of as many connections as there may be, and is counted.
2. The middleware looks at it: rate limiting, authentication, authorization, logging,
   metrics and CORS, in this order. The first stage that objects answers.
3. The header `x-service-name` names the service, `default` where it is missing.
4. The load balancer chooses a healthy endpoint of that service. If there is none, the
   answer is 502.
5. The circuit breaker of the service is asked. If it does not let the call pass, the
   answer is 503.
6. The request is forwarded, and tried again as the retry policy says, with jitter. If
   nothing comes back, the reply is 500.
7. The agent, if there is one, looks at the request and the reply.
8. The reply goes through the middleware, last stage first, and back to the client. The
   time since the request came is kept.

The counters, the distribution of the kept response times and the state of every circuit
breaker are served for Prometheus.

## Layout

- `src/` is the verified library. `proxy/` holds the load balancer with its hash ring, the
  circuit breaker, the retry policy, the middleware, the text of the metrics and the server;
  `ai/` holds anomaly detection, the decision rules, the learning model and the agent.
  `binary64` is IEEE 754 double precision arithmetic on bit patterns, `precision` says how
  far rounding reaches, `registry` holds items by name, `http` holds requests and replies,
  and `clock`, `random` and `text` are what their names say.
- `app/` is the program: the command line, the configuration file, sockets, calls to
  endpoints, timers and the log. It drives the library and decides nothing itself.
- `tests/` runs the library.

## What is proved

Every function of the library states what it returns and changes. Beyond that, some
functions of proof state what holds of several of them together:

- `load_balancer`: only healthy endpoints are chosen, and one is chosen wherever there is
  one; turns go round, shares follow weights.
- `hash_ring`: a new endpoint takes places over, and no place moves between old ones; where
  no nodes fall together, an endpoint that is taken out gives its own places away, and no
  other place moves.
- `circuit_breaker`: it is closed below the threshold and opens at it, stays open until its
  time is over, limits its trial calls, and closes or opens again by how they go.
- `retry`: no more attempts than allowed, only failures worth it are tried again, delays
  do not fall, grow by the multiplier and stay below the limit; and `jitter`: jitter moves
  them by a tenth.
- `middleware` and `rate_bound`: a full bucket admits a burst and no more, fills up by the
  second, and never holds more than its capacity; over any time, a client gets the burst
  and what the rate brings in that time, and no more.
- `server`: requests go to healthy endpoints, an open breaker keeps them back, each is
  counted once, and successes and failures together are never more than the requests.
- `ai`: attacks are noticed, severities, accuracies and error rates stay within one, and
  only an autonomous agent carries out what its rules come to, answers anomalies or raises
  alerts.

What comes from outside is trusted, in small functions that say so: `dashmap`, `http`
headers and URIs, `fastrand`, `uuid`, `chrono`, and a few functions of the standard library.

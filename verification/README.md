# komodo_ingress

The ingress part of a container management service, verified with Verus: reading Traefik
container labels into routers and services, building the Traefik HTTP provider configuration for
each ingress instance, and the rules around ingress instances (refusing a second default
instance on create or update, partial updates, queries, cached routes).

Layout:

- `src/text.rs` — string operations (split, trim, prefix and substring search, `u16` parsing
  and printing) with their exact specifications.
- `src/json.rs` — a JSON value type and its mathematical model.
- `src/table.rs` — a string-keyed table with unique keys and a fixed entry order.
- `src/labels.rs` — parsing of `traefik.http.routers.*` / `traefik.http.services.*` labels.
- `src/traefik_config.rs` — backend URLs and the Traefik configuration built from containers.
- `src/ingress.rs` — the ingress cache: which containers each instance serves, its routes and
  configuration.
- `src/entities.rs`, `src/api.rs` — the ingress instance resource and the requests on it.
- `app/` — serialisable copies of the types, JSON conversion, the HTTP endpoint Traefik polls,
  and the cache rebuild from a data source.
- `tests/` — executable tests of the library.

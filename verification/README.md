# lxs_registry

Browse and categorize the versioned Linux Services (LXS) of the public LXS registry.

- `src/` — the verified library (Verus):
  - `semver.rs`: reading version strings as (major, minor, patch) and comparing them;
  - `latest.rs`: the latest version of each LXS, by name;
  - `catalog.rs`: category counts, browse cards with search and category filter, the
    detail view, and the order of a registry scan;
  - `order.rs`: a strict-order trait and the insertion sort built on it;
  - `text.rs`: dictionary order, ASCII-case-insensitive equality, substring search and
    Unicode lower-casing of strings;
  - `refresh.rs`: when the registry clone is refreshed and with which `git` command;
  - `model.rs`: the records (manifests, cards, details, docs bundles);
  - `laws.rs`: properties that span several functions.
- `app/` — the service around it: the `git` clone, reading `lxs.yml` files and docs
  bundles from disk, the axum JSON API (`/api/lxs`, `/api/lxs/categories`,
  `/api/lxs/:name`) and the Leptos browse pages.
- `tests/` — tests of the library on concrete registries.

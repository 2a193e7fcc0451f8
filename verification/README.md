# nfc_scanner

The logic of a small HTTP service that keeps track of items ("entities") to
which NFC tags are assigned. An entity can have an owner entity, meaning that
it is assigned to or located in that entity, so the entities of a user form a
forest.

`src/` is the library, verified with Verus:

- `database::dao::entity_dao` builds the forest of entity closures from the
  rows of the `entity` table; `database::dao::forest_laws` proves that it
  holds exactly the entities whose owners lead up to an entity without an
  owner, each once.
- `services::entity_service` finds an entity's closure, decides whether a new
  owner is acceptable (proved to refuse exactly the owners that would create a
  cycle of owners), and merges partial updates.
- `controllers::entity_routes` gives the forest its API form and sorts it by id
  at every level.
- `database::db` decides when sample entities are added to a new database;
  `util` holds the model of an entity tree and small verified text routines
  (decimal rendering, substring search) that the error texts and that
  decision use.
- the remaining modules hold the rows, users, sessions and errors of the
  service and their conversions.

`app/` is the server around it: the axum routes, the sqlx queries against
SQLite, and serde forms of the request and response bodies.

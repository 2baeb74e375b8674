# psysonic_library

The ingest logic of a music-library index: how Subsonic and Navidrome song
payloads become track rows, how ISO-8601 timestamps become epoch milliseconds,
and how a batch of track rows is written with id-remap detection for servers
whose track ids are not stable. The functions in `src/` carry contracts
proved by Verus, except one wrapper in `src/text.rs` that calls `String::push`:
its contract is trusted, stated from the documentation of that std function.

Layout:

- `src/text.rs`: character helpers over `str` and `String`.
- `src/json.rs`: a JSON value type, its mathematical view, member reads,
  null stripping and the RFC 7396 merge patch.
- `src/time.rs`: civil dates and the day after, `format_iso_ms_z` and
  `parse_iso_ms_str`, with the round trips between them.
- `src/mapping.rs`: the projection of songs into track rows and the merge of
  album-level fields into a track's raw JSON.
- `src/repos.rs`: the track store model (tracks, id history, child rows) and
  the batch upsert with remap, with its laws.
- `src/delta.rs`: the paging and counting decisions of the two delta syncs.
- `app/`: the SQLite persistence, the serde conversions and the sync loops
  that fetch pages, hand them to the library and write the outcome back.

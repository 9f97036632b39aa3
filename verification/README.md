# boom-moc-index

Streaming meta-index of HEALPix MOCs in Valkey: given an alert position, it finds every currently
active skymap (LVK localization, GRB error region, neutrino track) that contains it. Only an
inverted index from HEALPix cells to MOC ids is kept hot in Valkey, so that a lookup is one set read
however many MOCs are active.

## Layout

- `src/` is the library, verified with Verus. It performs no I/O.
  - `healpix` cell arithmetic, `hpx_moc` MOCs, `fits` which FITS files the MOC reader can be given
  - `keys` the Valkey keys, `store` the commands and what they do
  - `index` registering MOCs, `cache` the parsed MOCs kept in process, `lookup` looking positions
    up, `history` what holds after any registrations
  - `alert`, `fetch`, `listener` handling GCN alerts, `benchmark` what the benchmark registers
  - `text` strings and numbers
- `app/` is the program: the connections to Valkey, Kafka and HTTP, and whatever is floating point.
- `tests/` exercises the library.

## What is proved

- After any registrations, through whatever handles, for every position and time and with anything
  in the cache, the hits of a lookup are exactly the MOCs whose last registration has not expired and
  that contain the position (`history::law_lookup_finds_every_active_moc`). A cached MOC is used only
  where it was parsed from the very bytes that are stored.
- A MOC that contains a position touches the position's cell at every depth, so the coarse step
  misses nothing (`hpx_moc::law_contained_position_is_indexed`).
- What the candidates of a cell are after any registrations
  (`history::law_candidates_after_registrations`), and that registering a MOC takes nothing from the
  others, however short its validity window (`index::law_registration_keeps_other_mocs`).
- A MOC's FITS bytes and metadata are stored exactly until it expires
  (`history::law_moc_is_stored_until_it_expires`). A cell set may list an expired MOC for as long as
  another one in it is valid; a lookup does not return it.
- A parsed MOC stays cached while fewer other MOCs than the capacity are used
  (`cache::law_used_moc_stays_cached`).
- A fetch makes at most three attempts, with one and two seconds between them
  (`fetch::law_fetch_is_bounded`).
- Writing a MOC as FITS and reading it gives the MOC back (`hpx_moc::moc_to_fits_bytes`).

Of Valkey the laws rest on the model in `store`. What is taken on trust of the outside crates stands
in the doc comments of the functions marked `external_body`.

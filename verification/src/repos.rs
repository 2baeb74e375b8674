//! The track store and the batch upsert with id remapping.
use vstd::prelude::*;
use crate::json::{JsonValue, Json, clone_value, json_patch, merge_patch, opt_string_view};

verus! {

// ---------------------------------------------------------------------------
// Rows

/// A track's stored raw JSON: the parsed value, or the text as received when it
/// is not valid JSON.
#[derive(Debug, PartialEq)]
pub enum RawJson {
    Json(JsonValue),
    Text(String),
}

/// The mathematical form of `RawJson`.
pub enum RawView {
    Json(Json),
    Text(Seq<char>),
}

impl View for RawJson {
    type V = RawView;

    open spec fn view(&self) -> RawView {
        match self {
            RawJson::Json(v) => RawView::Json(v@),
            RawJson::Text(t) => RawView::Text(t@),
        }
    }
}

/// A deep copy of a raw JSON payload.
pub fn clone_raw(r: &RawJson) -> (c: RawJson)
    ensures
        c@ == r@,
{
    match r {
        RawJson::Json(v) => RawJson::Json(clone_value(v)),
        RawJson::Text(t) => RawJson::Text(t.clone()),
    }
}

/// One row of the `track` table. Replay-gain numbers are kept as the text of
/// the JSON number they were read from.
#[derive(Debug, PartialEq)]
pub struct TrackRow {
    pub server_id: String,
    pub id: String,
    pub title: String,
    pub title_sort: Option<String>,
    pub artist: Option<String>,
    pub artist_id: Option<String>,
    pub album: String,
    pub album_id: Option<String>,
    pub album_artist: Option<String>,
    pub duration_sec: i64,
    pub track_number: Option<i64>,
    pub disc_number: Option<i64>,
    pub year: Option<i64>,
    pub genre: Option<String>,
    pub suffix: Option<String>,
    pub bit_rate: Option<i64>,
    pub size_bytes: Option<i64>,
    pub cover_art_id: Option<String>,
    pub starred_at: Option<i64>,
    pub user_rating: Option<i64>,
    pub play_count: Option<i64>,
    pub played_at: Option<i64>,
    pub server_path: Option<String>,
    pub library_id: Option<String>,
    pub isrc: Option<String>,
    pub mbid_recording: Option<String>,
    pub bpm: Option<i64>,
    pub replay_gain_track_db: Option<String>,
    pub replay_gain_album_db: Option<String>,
    pub replay_gain_peak: Option<String>,
    pub content_hash: Option<String>,
    pub server_updated_at: Option<i64>,
    pub server_created_at: Option<i64>,
    pub deleted: bool,
    pub synced_at: i64,
    pub raw_json: RawJson,
}

/// The mathematical form of a track row.
pub struct TrackRowView {
    pub server_id: Seq<char>,
    pub id: Seq<char>,
    pub title: Seq<char>,
    pub title_sort: Option<Seq<char>>,
    pub artist: Option<Seq<char>>,
    pub artist_id: Option<Seq<char>>,
    pub album: Seq<char>,
    pub album_id: Option<Seq<char>>,
    pub album_artist: Option<Seq<char>>,
    pub duration_sec: i64,
    pub track_number: Option<i64>,
    pub disc_number: Option<i64>,
    pub year: Option<i64>,
    pub genre: Option<Seq<char>>,
    pub suffix: Option<Seq<char>>,
    pub bit_rate: Option<i64>,
    pub size_bytes: Option<i64>,
    pub cover_art_id: Option<Seq<char>>,
    pub starred_at: Option<i64>,
    pub user_rating: Option<i64>,
    pub play_count: Option<i64>,
    pub played_at: Option<i64>,
    pub server_path: Option<Seq<char>>,
    pub library_id: Option<Seq<char>>,
    pub isrc: Option<Seq<char>>,
    pub mbid_recording: Option<Seq<char>>,
    pub bpm: Option<i64>,
    pub replay_gain_track_db: Option<Seq<char>>,
    pub replay_gain_album_db: Option<Seq<char>>,
    pub replay_gain_peak: Option<Seq<char>>,
    pub content_hash: Option<Seq<char>>,
    pub server_updated_at: Option<i64>,
    pub server_created_at: Option<i64>,
    pub deleted: bool,
    pub synced_at: i64,
    pub raw_json: RawView,
}

impl View for TrackRow {
    type V = TrackRowView;

    open spec fn view(&self) -> TrackRowView {
        TrackRowView {
            server_id: self.server_id@,
            id: self.id@,
            title: self.title@,
            title_sort: opt_string_view(self.title_sort),
            artist: opt_string_view(self.artist),
            artist_id: opt_string_view(self.artist_id),
            album: self.album@,
            album_id: opt_string_view(self.album_id),
            album_artist: opt_string_view(self.album_artist),
            duration_sec: self.duration_sec,
            track_number: self.track_number,
            disc_number: self.disc_number,
            year: self.year,
            genre: opt_string_view(self.genre),
            suffix: opt_string_view(self.suffix),
            bit_rate: self.bit_rate,
            size_bytes: self.size_bytes,
            cover_art_id: opt_string_view(self.cover_art_id),
            starred_at: self.starred_at,
            user_rating: self.user_rating,
            play_count: self.play_count,
            played_at: self.played_at,
            server_path: opt_string_view(self.server_path),
            library_id: opt_string_view(self.library_id),
            isrc: opt_string_view(self.isrc),
            mbid_recording: opt_string_view(self.mbid_recording),
            bpm: self.bpm,
            replay_gain_track_db: opt_string_view(self.replay_gain_track_db),
            replay_gain_album_db: opt_string_view(self.replay_gain_album_db),
            replay_gain_peak: opt_string_view(self.replay_gain_peak),
            content_hash: opt_string_view(self.content_hash),
            server_updated_at: self.server_updated_at,
            server_created_at: self.server_created_at,
            deleted: self.deleted,
            synced_at: self.synced_at,
            raw_json: self.raw_json@,
        }
    }
}

/// A copy of an optional text.
pub fn clone_opt(o: &Option<String>) -> (r: Option<String>)
    ensures
        opt_string_view(r) == opt_string_view(*o),
{
    match o {
        Some(s) => Some(s.clone()),
        None => None,
    }
}

impl TrackRow {
    /// A deep copy of the row.
    pub fn clone_row(&self) -> (r: TrackRow)
        ensures
            r@ == self@,
    {
        TrackRow {
            server_id: self.server_id.clone(),
            id: self.id.clone(),
            title: self.title.clone(),
            title_sort: clone_opt(&self.title_sort),
            artist: clone_opt(&self.artist),
            artist_id: clone_opt(&self.artist_id),
            album: self.album.clone(),
            album_id: clone_opt(&self.album_id),
            album_artist: clone_opt(&self.album_artist),
            duration_sec: self.duration_sec,
            track_number: self.track_number,
            disc_number: self.disc_number,
            year: self.year,
            genre: clone_opt(&self.genre),
            suffix: clone_opt(&self.suffix),
            bit_rate: self.bit_rate,
            size_bytes: self.size_bytes,
            cover_art_id: clone_opt(&self.cover_art_id),
            starred_at: self.starred_at,
            user_rating: self.user_rating,
            play_count: self.play_count,
            played_at: self.played_at,
            server_path: clone_opt(&self.server_path),
            library_id: clone_opt(&self.library_id),
            isrc: clone_opt(&self.isrc),
            mbid_recording: clone_opt(&self.mbid_recording),
            bpm: self.bpm,
            replay_gain_track_db: clone_opt(&self.replay_gain_track_db),
            replay_gain_album_db: clone_opt(&self.replay_gain_album_db),
            replay_gain_peak: clone_opt(&self.replay_gain_peak),
            content_hash: clone_opt(&self.content_hash),
            server_updated_at: self.server_updated_at,
            server_created_at: self.server_created_at,
            deleted: self.deleted,
            synced_at: self.synced_at,
            raw_json: clone_raw(&self.raw_json),
        }
    }
}


// ---------------------------------------------------------------------------
// The store

/// The tables whose rows point at a track by `(server_id, track_id)` and follow
/// it when its id is remapped.
#[derive(Debug, PartialEq, Eq, Structural, Clone, Copy)]
pub enum ChildTable {
    TrackOffline,
    TrackExtension,
    TrackFact,
    TrackArtifact,
    TrackCanonicalLink,
    PlaySession,
}

/// A row of a child table, reduced to the reference it holds.
#[derive(Debug, PartialEq)]
pub struct ChildRow {
    pub table: ChildTable,
    pub server_id: String,
    pub track_id: String,
}

pub struct ChildView {
    pub table: ChildTable,
    pub server_id: Seq<char>,
    pub track_id: Seq<char>,
}

impl View for ChildRow {
    type V = ChildView;

    open spec fn view(&self) -> ChildView {
        ChildView { table: self.table, server_id: self.server_id@, track_id: self.track_id@ }
    }
}

/// A row of `track_id_history`: which id replaced `old_id`, and when.
#[derive(Debug, PartialEq)]
pub struct TrackIdHistoryRow {
    pub server_id: String,
    pub old_id: String,
    pub new_id: String,
    pub content_hash: Option<String>,
    pub server_path: Option<String>,
    pub remapped_at: i64,
}

pub struct HistoryView {
    pub server_id: Seq<char>,
    pub old_id: Seq<char>,
    pub new_id: Seq<char>,
    pub content_hash: Option<Seq<char>>,
    pub server_path: Option<Seq<char>>,
    pub remapped_at: i64,
}

impl View for TrackIdHistoryRow {
    type V = HistoryView;

    open spec fn view(&self) -> HistoryView {
        HistoryView {
            server_id: self.server_id@,
            old_id: self.old_id@,
            new_id: self.new_id@,
            content_hash: opt_string_view(self.content_hash),
            server_path: opt_string_view(self.server_path),
            remapped_at: self.remapped_at,
        }
    }
}

/// One detected id remap of a batch.
#[derive(Debug, PartialEq)]
pub struct RemapEntry {
    pub server_id: String,
    pub old_id: String,
    pub new_id: String,
}

pub struct RemapEntryView {
    pub server_id: Seq<char>,
    pub old_id: Seq<char>,
    pub new_id: Seq<char>,
}

impl View for RemapEntry {
    type V = RemapEntryView;

    open spec fn view(&self) -> RemapEntryView {
        RemapEntryView { server_id: self.server_id@, old_id: self.old_id@, new_id: self.new_id@ }
    }
}

/// What a batch upsert reports: the remaps it performed, in row order.
#[derive(Debug, PartialEq)]
pub struct RemapStats {
    pub remapped: Vec<RemapEntry>,
}

pub open spec fn entries_view(es: Seq<RemapEntry>) -> Seq<RemapEntryView> {
    es.map_values(|e: RemapEntry| e@)
}

/// The track-related tables of the library: tracks, the id history and the
/// child rows that reference tracks.
pub struct LibraryStore {
    tracks: Vec<TrackRow>,
    history: Vec<TrackIdHistoryRow>,
    children: Vec<ChildRow>,
}

/// The mathematical form of the store.
pub struct StoreView {
    pub tracks: Seq<TrackRowView>,
    pub history: Seq<HistoryView>,
    pub children: Seq<ChildView>,
}

impl View for LibraryStore {
    type V = StoreView;

    closed spec fn view(&self) -> StoreView {
        StoreView {
            tracks: self.tracks@.map_values(|t: TrackRow| t@),
            history: self.history@.map_values(|h: TrackIdHistoryRow| h@),
            children: self.children@.map_values(|c: ChildRow| c@),
        }
    }
}

/// The first index at or after `i` whose element satisfies `p`.
pub open spec fn first_index<A>(s: Seq<A>, p: spec_fn(A) -> bool, i: int) -> Option<int>
    decreases s.len() - i,
{
    if i < 0 || i >= s.len() {
        None
    } else if p(s[i]) {
        Some(i)
    } else {
        first_index(s, p, i + 1)
    }
}

pub proof fn lemma_first_index<A>(s: Seq<A>, p: spec_fn(A) -> bool, i: int)
    requires
        0 <= i <= s.len(),
    ensures
        first_index(s, p, i) matches Some(k) ==> i <= k < s.len() && p(s[k])
            && forall|j: int| i <= j < k ==> !p(#[trigger] s[j]),
        first_index(s, p, i) is None ==> forall|j: int| i <= j < s.len() ==> !p(#[trigger] s[j]),
    decreases s.len() - i,
{
    if i < s.len() {
        lemma_first_index(s, p, i + 1);
    }
}

/// Rows with key `(server_id, id)`.
pub open spec fn track_key(server_id: Seq<char>, id: Seq<char>) -> spec_fn(TrackRowView) -> bool {
    |t: TrackRowView| t.server_id == server_id && t.id == id
}

/// Position of the track with key `(server_id, id)`.
pub open spec fn track_pos(ts: Seq<TrackRowView>, server_id: Seq<char>, id: Seq<char>) -> Option<int> {
    first_index(ts, track_key(server_id, id), 0)
}

/// History rows with key `(server_id, old_id)`.
pub open spec fn history_key(server_id: Seq<char>, old_id: Seq<char>) -> spec_fn(HistoryView) -> bool {
    |h: HistoryView| h.server_id == server_id && h.old_id == old_id
}

pub open spec fn history_pos(hs: Seq<HistoryView>, server_id: Seq<char>, old_id: Seq<char>) -> Option<int> {
    first_index(hs, history_key(server_id, old_id), 0)
}

/// No two tracks share a `(server_id, id)` key and no two history rows share a
/// `(server_id, old_id)` key, as the tables' primary keys demand.
pub open spec fn store_wf(st: StoreView) -> bool {
    &&& forall|i: int, j: int|
        0 <= i < j < st.tracks.len() ==> !(#[trigger] st.tracks[i].server_id == #[trigger] st.tracks[j].server_id
            && st.tracks[i].id == st.tracks[j].id)
    &&& forall|i: int, j: int|
        0 <= i < j < st.history.len() ==> !(#[trigger] st.history[i].server_id == #[trigger] st.history[j].server_id
            && st.history[i].old_id == st.history[j].old_id)
}

impl LibraryStore {
    /// An empty store.
    pub fn open_in_memory() -> (r: LibraryStore)
        ensures
            r@.tracks.len() == 0,
            r@.history.len() == 0,
            r@.children.len() == 0,
            store_wf(r@),
    {
        let r = LibraryStore { tracks: Vec::new(), history: Vec::new(), children: Vec::new() };
        assert(r@.tracks =~= Seq::<TrackRowView>::empty());
        assert(r@.history =~= Seq::<HistoryView>::empty());
        assert(r@.children =~= Seq::<ChildView>::empty());
        r
    }

    /// Number of track rows.
    pub fn track_count(&self) -> (n: usize)
        ensures
            n == self@.tracks.len(),
    {
        self.tracks.len()
    }

    /// Number of `track_id_history` rows.
    pub fn history_count(&self) -> (n: usize)
        ensures
            n == self@.history.len(),
    {
        self.history.len()
    }

    /// Position of the track with key `(server_id, id)`.
    pub fn find_track(&self, server_id: &str, id: &str) -> (r: Option<usize>)
        ensures
            r matches Some(i) ==> track_pos(self@.tracks, server_id@, id@) == Some(i as int)
                && i < self@.tracks.len(),
            r is None ==> track_pos(self@.tracks, server_id@, id@) is None,
    {
        let ghost ts = self@.tracks;
        let n = self.tracks.len();
        let mut i: usize = 0;
        while i < n
            invariant
                n == self.tracks@.len(),
                ts == self@.tracks,
                ts.len() == n,
                i <= n,
                first_index(ts, track_key(server_id@, id@), 0) == first_index(ts, track_key(server_id@, id@), i as int),
            decreases n - i,
        {
            let t = &self.tracks[i];
            assert(ts[i as int] == t@);
            if crate::text::str_eq(t.server_id.as_str(), server_id) && crate::text::str_eq(t.id.as_str(), id) {
                proof {
                    lemma_first_index(ts, track_key(server_id@, id@), i as int);
                }
                return Some(i);
            }
            i = i + 1;
        }
        None
    }
}


// ---------------------------------------------------------------------------
// What one upsert does

/// A key text counts only when it is present and not empty.
pub open spec fn eligible(o: Option<Seq<char>>) -> Option<Seq<char>> {
    match o {
        Some(s) => if s.len() > 0 {
            Some(s)
        } else {
            None
        },
        None => None,
    }
}

/// A live track of the same server, under another id, whose content hash is `h`.
pub open spec fn hash_match(r: TrackRowView, h: Seq<char>) -> spec_fn(TrackRowView) -> bool {
    |t: TrackRowView| t.server_id == r.server_id && !t.deleted && t.content_hash == Some(h) && t.id != r.id
}

/// A live track of the same server, under another id, whose server path is `p`.
pub open spec fn path_match(r: TrackRowView, p: Seq<char>) -> spec_fn(TrackRowView) -> bool {
    |t: TrackRowView| t.server_id == r.server_id && !t.deleted && t.server_path == Some(p) && t.id != r.id
}

/// The id that the incoming row `r` replaces: the first live track of the same
/// server under another id with the same non-empty content hash, else the first
/// with the same non-empty server path, else none.
pub open spec fn remap_target(ts: Seq<TrackRowView>, r: TrackRowView) -> Option<Seq<char>> {
    let by_hash = match eligible(r.content_hash) {
        Some(h) => first_index(ts, hash_match(r, h), 0),
        None => None,
    };
    match by_hash {
        Some(i) => Some(ts[i].id),
        None => match eligible(r.server_path) {
            Some(p) => match first_index(ts, path_match(r, p), 0) {
                Some(i) => Some(ts[i].id),
                None => None,
            },
            None => None,
        },
    }
}

/// SQLite's `CASE WHEN json_valid(old) AND json_valid(new) THEN json_patch(old, new)
/// ELSE new END`: present members of the incoming payload win (an explicit null
/// removes), absent ones survive from the stored payload.
pub open spec fn merge_raw(old: RawView, incoming: RawView) -> RawView {
    match (old, incoming) {
        (RawView::Json(o), RawView::Json(i)) => RawView::Json(merge_patch(o, i)),
        _ => incoming,
    }
}

/// The row `r` with its raw JSON replaced by `raw`.
pub open spec fn with_raw(r: TrackRowView, raw: RawView) -> TrackRowView {
    TrackRowView { raw_json: raw, ..r }
}

/// The track table after the upsert of `r`: the row under its key is replaced
/// (keeping the union of raw JSON members when `sparse`), or `r` is appended.
pub open spec fn upsert_view(ts: Seq<TrackRowView>, r: TrackRowView, sparse: bool) -> Seq<TrackRowView> {
    match track_pos(ts, r.server_id, r.id) {
        Some(i) => ts.update(
            i,
            if sparse {
                with_raw(r, merge_raw(ts[i].raw_json, r.raw_json))
            } else {
                r
            },
        ),
        None => ts.push(r),
    }
}

/// The track table without the row keyed `(server_id, id)`.
pub open spec fn delete_view(ts: Seq<TrackRowView>, server_id: Seq<char>, id: Seq<char>) -> Seq<TrackRowView> {
    match track_pos(ts, server_id, id) {
        Some(i) => ts.remove(i),
        None => ts,
    }
}

/// A child row pointed at `new_id` when it references `(server_id, old_id)`.
pub open spec fn retarget_child(c: ChildView, server_id: Seq<char>, old_id: Seq<char>, new_id: Seq<char>) -> ChildView {
    if c.server_id == server_id && c.track_id == old_id {
        ChildView { track_id: new_id, ..c }
    } else {
        c
    }
}

/// Child rows with every reference to `(server_id, old_id)` pointed at `new_id`.
pub open spec fn retarget_view(cs: Seq<ChildView>, server_id: Seq<char>, old_id: Seq<char>, new_id: Seq<char>) -> Seq<ChildView> {
    cs.map_values(|c: ChildView| retarget_child(c, server_id, old_id, new_id))
}

/// The id history after recording `h`, replacing the row with the same key.
pub open spec fn history_upsert_view(hs: Seq<HistoryView>, h: HistoryView) -> Seq<HistoryView> {
    match history_pos(hs, h.server_id, h.old_id) {
        Some(i) => hs.update(i, h),
        None => hs.push(h),
    }
}

/// The raw JSON that a remapped sparse row is written with: the incoming payload
/// merged onto the one stored under the replaced id.
pub open spec fn remap_source_raw(ts: Seq<TrackRowView>, server_id: Seq<char>, old_id: Seq<char>, incoming: RawView) -> RawView {
    match track_pos(ts, server_id, old_id) {
        Some(i) => merge_raw(ts[i].raw_json, incoming),
        None => incoming,
    }
}

/// The store after the remap of `(server_id, old_id)` onto `r`'s id: children
/// retargeted, the history row recorded, the old track removed.
pub open spec fn remap_view(st: StoreView, r: TrackRowView, old_id: Seq<char>) -> StoreView {
    StoreView {
        tracks: delete_view(st.tracks, r.server_id, old_id),
        history: history_upsert_view(
            st.history,
            HistoryView {
                server_id: r.server_id,
                old_id,
                new_id: r.id,
                content_hash: r.content_hash,
                server_path: r.server_path,
                remapped_at: r.synced_at,
            },
        ),
        children: retarget_view(st.children, r.server_id, old_id, r.id),
    }
}

/// One row of a batch: detect the id it replaces (when ids are unstable), write
/// it, and remap the replaced id onto it.
pub open spec fn apply_row(st: StoreView, r: TrackRowView, unstable: bool, sparse: bool) -> (StoreView, Option<RemapEntryView>) {
    let old = if unstable {
        remap_target(st.tracks, r)
    } else {
        None
    };
    let raw = match old {
        Some(o) => if sparse {
            remap_source_raw(st.tracks, r.server_id, o, r.raw_json)
        } else {
            r.raw_json
        },
        None => r.raw_json,
    };
    let st1 = StoreView { tracks: upsert_view(st.tracks, with_raw(r, raw), sparse), ..st };
    match old {
        Some(o) => (remap_view(st1, r, o), Some(RemapEntryView { server_id: r.server_id, old_id: o, new_id: r.id })),
        None => (st1, None),
    }
}

/// A whole batch, row after row, with the remaps in row order.
pub open spec fn apply_rows(st: StoreView, rows: Seq<TrackRowView>, unstable: bool, sparse: bool) -> (StoreView, Seq<RemapEntryView>)
    decreases rows.len(),
{
    if rows.len() == 0 {
        (st, Seq::empty())
    } else {
        let (st1, es) = apply_rows(st, rows.drop_last(), unstable, sparse);
        let (st2, e) = apply_row(st1, rows.last(), unstable, sparse);
        (
            st2,
            match e {
                Some(x) => es.push(x),
                None => es,
            },
        )
    }
}


/// `Some(text)` when the optional text is present and not empty.
pub fn eligible_key(o: &Option<String>) -> (r: Option<&String>)
    ensures
        r matches Some(s) ==> eligible(opt_string_view(*o)) == Some(s@),
        r is None ==> eligible(opt_string_view(*o)) is None,
{
    match o {
        Some(s) => if crate::text::chars_of(s.as_str()).len() > 0 {
            Some(s)
        } else {
            None
        },
        None => None,
    }
}

fn opt_text_is(o: &Option<String>, t: &String) -> (r: bool)
    ensures
        r == (opt_string_view(*o) == Some(t@)),
{
    match o {
        Some(s) => *s == *t,
        None => false,
    }
}

impl LibraryStore {
    /// The store's keys are unique.
    pub open spec fn wf(&self) -> bool {
        store_wf(self@)
    }

    /// The first live track of `r`'s server under another id whose content hash
    /// (`by_hash`) or server path (otherwise) is `key`.
    fn first_live_match(&self, r: &TrackRow, key: &String, by_hash: bool) -> (res: Option<usize>)
        ensures
            res matches Some(i) ==> Some(i as int) == first_index(
                self@.tracks,
                if by_hash { hash_match(r@, key@) } else { path_match(r@, key@) },
                0,
            ) && i < self@.tracks.len(),
            res is None ==> first_index(
                self@.tracks,
                if by_hash { hash_match(r@, key@) } else { path_match(r@, key@) },
                0,
            ) is None,
    {
        let ghost ts = self@.tracks;
        let ghost p = if by_hash { hash_match(r@, key@) } else { path_match(r@, key@) };
        let n = self.tracks.len();
        let mut i: usize = 0;
        while i < n
            invariant
                n == self.tracks@.len(),
                ts == self@.tracks,
                ts.len() == n,
                p == (if by_hash { hash_match(r@, key@) } else { path_match(r@, key@) }),
                i <= n,
                first_index(ts, p, 0) == first_index(ts, p, i as int),
            decreases n - i,
        {
            let t = &self.tracks[i];
            assert(ts[i as int] == t@);
            let field = if by_hash { &t.content_hash } else { &t.server_path };
            if t.server_id == r.server_id && !t.deleted && opt_text_is(field, key) && !(t.id == r.id) {
                return Some(i);
            }
            i = i + 1;
        }
        None
    }

    /// The id that `incoming` replaces, per `remap_target`: hash first, then path;
    /// empty keys never match.
    pub fn detect_remap_target(&self, incoming: &TrackRow) -> (r: Option<String>)
        ensures
            opt_string_view(r) == remap_target(self@.tracks, incoming@),
    {
        let ghost ts = self@.tracks;
        match eligible_key(&incoming.content_hash) {
            Some(h) => match self.first_live_match(incoming, h, true) {
                Some(i) => {
                    assert(ts[i as int] == self.tracks@[i as int]@);
                    return Some(self.tracks[i].id.clone());
                },
                None => {},
            },
            None => {},
        }
        match eligible_key(&incoming.server_path) {
            Some(p) => match self.first_live_match(incoming, p, false) {
                Some(i) => {
                    assert(ts[i as int] == self.tracks@[i as int]@);
                    Some(self.tracks[i].id.clone())
                },
                None => None,
            },
            None => None,
        }
    }
}


/// The raw JSON written when `incoming` lands on a row holding `old`, per `merge_raw`.
pub fn merge_raw_exec(old: &RawJson, incoming: &RawJson) -> (r: RawJson)
    ensures
        r@ == merge_raw(old@, incoming@),
{
    match (old, incoming) {
        (RawJson::Json(o), RawJson::Json(i)) => RawJson::Json(json_patch(o, i)),
        _ => clone_raw(incoming),
    }
}

proof fn lemma_map_update<A, B>(s: Seq<A>, i: int, a: A, f: spec_fn(A) -> B)
    requires
        0 <= i < s.len(),
    ensures
        s.update(i, a).map_values(f) == s.map_values(f).update(i, f(a)),
{
    assert(s.update(i, a).map_values(f) =~= s.map_values(f).update(i, f(a)));
}

proof fn lemma_map_push<A, B>(s: Seq<A>, a: A, f: spec_fn(A) -> B)
    ensures
        s.push(a).map_values(f) == s.map_values(f).push(f(a)),
{
    assert(s.push(a).map_values(f) =~= s.map_values(f).push(f(a)));
}

proof fn lemma_map_remove<A, B>(s: Seq<A>, i: int, f: spec_fn(A) -> B)
    requires
        0 <= i < s.len(),
    ensures
        s.remove(i).map_values(f) == s.map_values(f).remove(i),
{
    assert(s.remove(i).map_values(f) =~= s.map_values(f).remove(i));
}

impl LibraryStore {
    /// The raw JSON of a sparse row that replaces `old_id`: the incoming payload
    /// merged onto the one stored under `old_id`, or the incoming payload when
    /// no such track is stored.
    pub fn merge_sparse_raw_from_remap_source(&self, server_id: &str, old_id: &str, incoming_raw: &RawJson) -> (r: RawJson)
        ensures
            r@ == remap_source_raw(self@.tracks, server_id@, old_id@, incoming_raw@),
    {
        match self.find_track(server_id, old_id) {
            Some(i) => {
                assert(self@.tracks[i as int] == self.tracks@[i as int]@);
                merge_raw_exec(&self.tracks[i].raw_json, incoming_raw)
            },
            None => clone_raw(incoming_raw),
        }
    }

    /// Writes `row` under its key, per `upsert_view`.
    pub fn upsert_track(&mut self, row: TrackRow, sparse: bool)
        requires
            old(self).wf(),
        ensures
            final(self).wf(),
            final(self)@.tracks == upsert_view(old(self)@.tracks, row@, sparse),
            final(self)@.history == old(self)@.history,
            final(self)@.children == old(self)@.children,
    {
        let ghost ts = self@.tracks;
        let ghost f = |t: TrackRow| t@;
        match self.find_track(row.server_id.as_str(), row.id.as_str()) {
            Some(i) => {
                proof {
                    lemma_first_index(ts, track_key(row@.server_id, row@.id), 0);
                    assert(ts[i as int] == self.tracks@[i as int]@);
                }
                let new_row = if sparse {
                    let raw = merge_raw_exec(&self.tracks[i].raw_json, &row.raw_json);
                    TrackRow { raw_json: raw, ..row }
                } else {
                    row
                };
                self.tracks.set(i, new_row);
                proof {
                    lemma_map_update(old(self).tracks@, i as int, new_row, f);
                    assert(self@.tracks == upsert_view(ts, row@, sparse));
                }
            },
            None => {
                proof {
                    lemma_first_index(ts, track_key(row@.server_id, row@.id), 0);
                    lemma_map_push(old(self).tracks@, row, f);
                }
                self.tracks.push(row);
            },
        }
        assert(self@.history == old(self)@.history);
        assert(self@.children == old(self)@.children);
    }
}


impl LibraryStore {
    /// Points every child row referencing `(server_id, old_id)` at `new_id`.
    fn retarget_children(&mut self, server_id: &String, old_id: &String, new_id: &String)
        ensures
            final(self)@.children == retarget_view(old(self)@.children, server_id@, old_id@, new_id@),
            final(self)@.tracks == old(self)@.tracks,
            final(self)@.history == old(self)@.history,
    {
        let n = self.children.len();
        let mut i: usize = 0;
        while i < n
            invariant
                n == self.children@.len(),
                n == old(self).children@.len(),
                i <= n,
                self.tracks == old(self).tracks,
                self.history == old(self).history,
                forall|j: int| 0 <= j < i ==> #[trigger] self.children@[j]@ == retarget_child(old(self).children@[j]@, server_id@, old_id@, new_id@),
                forall|j: int| i <= j < n ==> #[trigger] self.children@[j] == old(self).children@[j],
            decreases n - i,
        {
            if self.children[i].server_id == *server_id && self.children[i].track_id == *old_id {
                let c = ChildRow {
                    table: self.children[i].table,
                    server_id: server_id.clone(),
                    track_id: new_id.clone(),
                };
                self.children.set(i, c);
            }
            i = i + 1;
        }
        assert(self@.children =~= retarget_view(old(self)@.children, server_id@, old_id@, new_id@));
    }

    /// Records `(server_id, old_id) -> new_id` in the id history, replacing an
    /// earlier record for the same old id.
    fn record_history(&mut self, h: TrackIdHistoryRow)
        requires
            old(self).wf(),
        ensures
            final(self).wf(),
            final(self)@.history == history_upsert_view(old(self)@.history, h@),
            final(self)@.tracks == old(self)@.tracks,
            final(self)@.children == old(self)@.children,
    {
        let ghost hs = self@.history;
        let ghost f = |x: TrackIdHistoryRow| x@;
        let ghost p = history_key(h@.server_id, h@.old_id);
        let n = self.history.len();
        let mut i: usize = 0;
        while i < n
            invariant
                n == self.history@.len(),
                hs == self@.history,
                hs.len() == n,
                i <= n,
                p == history_key(h@.server_id, h@.old_id),
                first_index(hs, p, 0) == first_index(hs, p, i as int),
                *self == *old(self),
                old(self).wf(),
                f == (|x: TrackIdHistoryRow| x@),
            decreases n - i,
        {
            assert(hs[i as int] == self.history@[i as int]@);
            if self.history[i].server_id == h.server_id && self.history[i].old_id == h.old_id {
                proof {
                    lemma_first_index(hs, p, i as int);
                    lemma_map_update(self.history@, i as int, h, f);
                }
                self.history.set(i, h);
                return;
            }
            i = i + 1;
        }
        proof {
            lemma_first_index(hs, p, 0);
            lemma_map_push(self.history@, h, f);
        }
        self.history.push(h);
    }

    /// Removes the track keyed `(server_id, id)`, if stored.
    fn delete_track(&mut self, server_id: &str, id: &str)
        requires
            old(self).wf(),
        ensures
            final(self).wf(),
            final(self)@.tracks == delete_view(old(self)@.tracks, server_id@, id@),
            final(self)@.history == old(self)@.history,
            final(self)@.children == old(self)@.children,
    {
        let ghost f = |t: TrackRow| t@;
        match self.find_track(server_id, id) {
            Some(i) => {
                proof {
                    lemma_map_remove(self.tracks@, i as int, f);
                }
                self.tracks.remove(i);
                proof {
                    let a = old(self)@.tracks;
                    let b = self@.tracks;
                    assert forall|x: int, y: int| 0 <= x < y < b.len() implies !(#[trigger] b[x].server_id == #[trigger] b[y].server_id
                        && b[x].id == b[y].id) by {
                        let xa = if x < i { x } else { x + 1 };
                        let ya = if y < i { y } else { y + 1 };
                        assert(b[x] == a[xa]);
                        assert(b[y] == a[ya]);
                    }
                }
            },
            None => {},
        }
    }

    /// The remap half: children follow the new id, the history records the
    /// remap, and the old track row goes.
    pub fn remap_existing_to_new(
        &mut self,
        server_id: &String,
        old_id: &String,
        new_id: &String,
        content_hash: &Option<String>,
        server_path: &Option<String>,
        remapped_at: i64,
    )
        requires
            old(self).wf(),
        ensures
            final(self).wf(),
            final(self)@.children == retarget_view(old(self)@.children, server_id@, old_id@, new_id@),
            final(self)@.history == history_upsert_view(
                old(self)@.history,
                HistoryView {
                    server_id: server_id@,
                    old_id: old_id@,
                    new_id: new_id@,
                    content_hash: opt_string_view(*content_hash),
                    server_path: opt_string_view(*server_path),
                    remapped_at,
                },
            ),
            final(self)@.tracks == delete_view(old(self)@.tracks, server_id@, old_id@),
    {
        self.retarget_children(server_id, old_id, new_id);
        assert(self.wf());
        let h = TrackIdHistoryRow {
            server_id: server_id.clone(),
            old_id: old_id.clone(),
            new_id: new_id.clone(),
            content_hash: clone_opt(content_hash),
            server_path: clone_opt(server_path),
            remapped_at,
        };
        self.record_history(h);
        self.delete_track(server_id.as_str(), old_id.as_str());
    }
}


// ---------------------------------------------------------------------------
// The repository

pub open spec fn rows_view(rows: Seq<TrackRow>) -> Seq<TrackRowView> {
    rows.map_values(|t: TrackRow| t@)
}

/// Batch writes of track rows onto a store.
pub struct TrackRepository {
    store: LibraryStore,
}

impl View for TrackRepository {
    type V = StoreView;

    closed spec fn view(&self) -> StoreView {
        self.store@
    }
}

impl TrackRepository {
    /// The repository's store keeps unique keys.
    pub closed spec fn wf(&self) -> bool {
        self.store.wf()
    }

    /// A repository over `store`.
    pub fn new(store: LibraryStore) -> (r: TrackRepository)
        requires
            store.wf(),
        ensures
            r.wf(),
            r@ == store@,
    {
        TrackRepository { store }
    }

    /// The store written to.
    pub fn store(&self) -> (r: &LibraryStore)
        ensures
            r@ == self@,
            self.wf() ==> r.wf(),
    {
        &self.store
    }

    /// Gives the store back.
    pub fn into_store(self) -> (r: LibraryStore)
        ensures
            r@ == self@,
            self.wf() ==> r.wf(),
    {
        self.store
    }

    /// Plain batch upsert: every row is written under its key, nothing is
    /// remapped.
    pub fn upsert_batch(&mut self, rows: &[TrackRow]) -> (r: Result<(), String>)
        requires
            old(self).wf(),
        ensures
            final(self).wf(),
            r is Ok,
            final(self)@ == apply_rows(old(self)@, rows_view(rows@), false, false).0,
    {
        let _ = self.upsert_batch_with_remap_source(rows, false, false);
        Ok(())
    }

    /// Batch upsert with optional id-remap detection. When `unstable_track_ids`
    /// is true, each incoming row is checked against the stored tracks for a
    /// live row of the same server under another id with the same content
    /// hash or server path; on a hit the child rows follow the new id, a history
    /// row is recorded and the old track row is removed.
    pub fn upsert_batch_with_remap(&mut self, rows: &[TrackRow], unstable_track_ids: bool) -> (r: Result<RemapStats, String>)
        requires
            old(self).wf(),
        ensures
            final(self).wf(),
            r matches Ok(stats) && (final(self)@, entries_view(stats.remapped@)) == apply_rows(
                old(self)@,
                rows_view(rows@),
                unstable_track_ids,
                false,
            ),
    {
        self.upsert_batch_with_remap_source(rows, unstable_track_ids, false)
    }

    /// Remap-aware upsert for payloads that are intentionally sparse: raw JSON
    /// members missing from an incoming row survive from the stored row (the
    /// row under the incoming key, or the replaced row on a remap).
    pub fn upsert_sparse_batch_with_remap(&mut self, rows: &[TrackRow], unstable_track_ids: bool) -> (r: Result<RemapStats, String>)
        requires
            old(self).wf(),
        ensures
            final(self).wf(),
            r matches Ok(stats) && (final(self)@, entries_view(stats.remapped@)) == apply_rows(
                old(self)@,
                rows_view(rows@),
                unstable_track_ids,
                true,
            ),
    {
        self.upsert_batch_with_remap_source(rows, unstable_track_ids, true)
    }

    fn upsert_batch_with_remap_source(&mut self, rows: &[TrackRow], unstable_track_ids: bool, sparse_payload: bool) -> (r: Result<RemapStats, String>)
        requires
            old(self).wf(),
        ensures
            final(self).wf(),
            r matches Ok(stats) && (final(self)@, entries_view(stats.remapped@)) == apply_rows(
                old(self)@,
                rows_view(rows@),
                unstable_track_ids,
                sparse_payload,
            ),
    {
        let ghost rv = rows_view(rows@);
        let mut remapped: Vec<RemapEntry> = Vec::new();
        let n = rows.len();
        let mut i: usize = 0;
        proof {
            assert(rv.take(0) =~= Seq::<TrackRowView>::empty());
            assert(entries_view(remapped@) =~= Seq::<RemapEntryView>::empty());
        }
        while i < n
            invariant
                n == rows@.len(),
                rv == rows_view(rows@),
                i <= n,
                self.wf(),
                (self@, entries_view(remapped@)) == apply_rows(old(self)@, rv.take(i as int), unstable_track_ids, sparse_payload),
            decreases n - i,
        {
            let r = &rows[i];
            let ghost st0 = self@;
            let ghost es0 = entries_view(remapped@);
            proof {
                assert(rv.take(i + 1).drop_last() =~= rv.take(i as int));
                assert(rv.take(i + 1).last() == r@);
            }
            let detected_old = if unstable_track_ids {
                self.store.detect_remap_target(r)
            } else {
                None
            };
            let raw = match &detected_old {
                Some(old_id) => if sparse_payload {
                    self.store.merge_sparse_raw_from_remap_source(r.server_id.as_str(), old_id.as_str(), &r.raw_json)
                } else {
                    clone_raw(&r.raw_json)
                },
                None => clone_raw(&r.raw_json),
            };
            let c = r.clone_row();
            let row = TrackRow { raw_json: raw, ..c };
            assert(row@ == with_raw(r@, raw@));
            self.store.upsert_track(row, sparse_payload);
            match detected_old {
                Some(old_id) => {
                    self.store.remap_existing_to_new(&r.server_id, &old_id, &r.id, &r.content_hash, &r.server_path, r.synced_at);
                    let e = RemapEntry { server_id: r.server_id.clone(), old_id, new_id: r.id.clone() };
                    proof {
                        assert(entries_view(remapped@.push(e)) =~= es0.push(e@));
                    }
                    remapped.push(e);
                },
                None => {},
            }
            i = i + 1;
        }
        assert(rv.take(n as int) =~= rv);
        Ok(RemapStats { remapped })
    }
}


// ---------------------------------------------------------------------------
// Reading and seeding the store

impl LibraryStore {
    /// The stored track keyed `(server_id, id)`.
    pub fn get_track(&self, server_id: &str, id: &str) -> (r: Option<&TrackRow>)
        ensures
            r matches Some(t) ==> track_pos(self@.tracks, server_id@, id@) matches Some(i) && self@.tracks[i] == t@,
            r is None ==> track_pos(self@.tracks, server_id@, id@) is None,
    {
        match self.find_track(server_id, id) {
            Some(i) => {
                assert(self@.tracks[i as int] == self.tracks@[i as int]@);
                Some(&self.tracks[i])
            },
            None => None,
        }
    }

    /// The ids of the stored tracks of `server_id`, in table order.
    pub fn track_ids(&self, server_id: &str) -> (r: Vec<String>)
        ensures
            r@.map_values(|s: String| s@) == self@.tracks.filter(|t: TrackRowView| t.server_id == server_id@).map_values(
                |t: TrackRowView| t.id,
            ),
    {
        let ghost ts = self@.tracks;
        let ghost p = |t: TrackRowView| t.server_id == server_id@;
        let mut out: Vec<String> = Vec::new();
        let n = self.tracks.len();
        let mut i: usize = 0;
        proof {
            assert(ts.take(0) =~= Seq::<TrackRowView>::empty());
            assert(ts.take(0).filter(p) =~= Seq::<TrackRowView>::empty());
            assert(out@.map_values(|s: String| s@) =~= Seq::<Seq<char>>::empty());
        }
        while i < n
            invariant
                n == self.tracks@.len(),
                ts == self@.tracks,
                ts.len() == n,
                p == (|t: TrackRowView| t.server_id == server_id@),
                i <= n,
                out@.map_values(|s: String| s@) == ts.take(i as int).filter(p).map_values(|t: TrackRowView| t.id),
            decreases n - i,
        {
            let t = &self.tracks[i];
            proof {
                assert(ts[i as int] == t@);
                assert(ts.take(i + 1).drop_last() =~= ts.take(i as int));
                reveal(Seq::filter);
            }
            if crate::text::str_eq(t.server_id.as_str(), server_id) {
                let c = t.id.clone();
                proof {
                    assert(out@.push(c).map_values(|s: String| s@) =~= out@.map_values(|s: String| s@).push(c@));
                    assert(ts.take(i + 1).filter(p) == ts.take(i as int).filter(p).push(ts[i as int]));
                    assert(ts.take(i as int).filter(p).push(ts[i as int]).map_values(|t: TrackRowView| t.id)
                        =~= ts.take(i as int).filter(p).map_values(|t: TrackRowView| t.id).push(t@.id));
                }
                out.push(c);
            } else {
                proof {
                    assert(ts.take(i + 1).filter(p) == ts.take(i as int).filter(p));
                }
            }
            i = i + 1;
        }
        proof {
            assert(ts.take(n as int) =~= ts);
        }
        out
    }

    /// Adds a child row referencing `(server_id, track_id)` in `table`.
    pub fn insert_child(&mut self, table: ChildTable, server_id: &str, track_id: &str)
        ensures
            final(self)@.children == old(self)@.children.push(
                ChildView { table, server_id: server_id@, track_id: track_id@ },
            ),
            final(self)@.tracks == old(self)@.tracks,
            final(self)@.history == old(self)@.history,
    {
        let c = ChildRow { table, server_id: crate::text::string_from(server_id), track_id: crate::text::string_from(track_id) };
        proof {
            lemma_map_push(self.children@, c, |c: ChildRow| c@);
        }
        self.children.push(c);
    }

    /// The track ids referenced from `table` for `server_id`, in table order.
    pub fn child_track_ids(&self, table: ChildTable, server_id: &str) -> (r: Vec<String>)
        ensures
            r@.map_values(|s: String| s@) == self@.children.filter(
                |c: ChildView| c.table == table && c.server_id == server_id@,
            ).map_values(|c: ChildView| c.track_id),
    {
        let ghost cs = self@.children;
        let ghost p = |c: ChildView| c.table == table && c.server_id == server_id@;
        let mut out: Vec<String> = Vec::new();
        let n = self.children.len();
        let mut i: usize = 0;
        proof {
            assert(cs.take(0) =~= Seq::<ChildView>::empty());
            assert(cs.take(0).filter(p) =~= Seq::<ChildView>::empty());
            assert(out@.map_values(|s: String| s@) =~= Seq::<Seq<char>>::empty());
        }
        while i < n
            invariant
                n == self.children@.len(),
                cs == self@.children,
                cs.len() == n,
                p == (|c: ChildView| c.table == table && c.server_id == server_id@),
                i <= n,
                out@.map_values(|s: String| s@) == cs.take(i as int).filter(p).map_values(|c: ChildView| c.track_id),
            decreases n - i,
        {
            let c = &self.children[i];
            proof {
                assert(cs[i as int] == c@);
                assert(cs.take(i + 1).drop_last() =~= cs.take(i as int));
                reveal(Seq::filter);
            }
            if c.table == table && crate::text::str_eq(c.server_id.as_str(), server_id) {
                let x = c.track_id.clone();
                proof {
                    assert(out@.push(x).map_values(|s: String| s@) =~= out@.map_values(|s: String| s@).push(x@));
                    assert(cs.take(i + 1).filter(p) == cs.take(i as int).filter(p).push(cs[i as int]));
                    assert(cs.take(i as int).filter(p).push(cs[i as int]).map_values(|c: ChildView| c.track_id)
                        =~= cs.take(i as int).filter(p).map_values(|c: ChildView| c.track_id).push(c@.track_id));
                }
                out.push(x);
            } else {
                proof {
                    assert(cs.take(i + 1).filter(p) == cs.take(i as int).filter(p));
                }
            }
            i = i + 1;
        }
        proof {
            assert(cs.take(n as int) =~= cs);
        }
        out
    }

    /// The id-history row of `(server_id, old_id)`.
    pub fn get_history(&self, server_id: &str, old_id: &str) -> (r: Option<&TrackIdHistoryRow>)
        ensures
            r matches Some(h) ==> history_pos(self@.history, server_id@, old_id@) matches Some(k)
                && self@.history[k] == h@,
            r is None ==> history_pos(self@.history, server_id@, old_id@) is None,
    {
        let ghost hs = self@.history;
        let ghost p = history_key(server_id@, old_id@);
        let n = self.history.len();
        let mut i: usize = 0;
        while i < n
            invariant
                n == self.history@.len(),
                hs == self@.history,
                hs.len() == n,
                p == history_key(server_id@, old_id@),
                i <= n,
                first_index(hs, p, 0) == first_index(hs, p, i as int),
            decreases n - i,
        {
            let h = &self.history[i];
            assert(hs[i as int] == h@);
            if crate::text::str_eq(h.server_id.as_str(), server_id) && crate::text::str_eq(h.old_id.as_str(), old_id) {
                return Some(h);
            }
            i = i + 1;
        }
        None
    }

    /// The replaced ids recorded in the id history of `server_id`, in table order.
    pub fn history_old_ids(&self, server_id: &str) -> (r: Vec<String>)
        ensures
            r@.map_values(|s: String| s@) == self@.history.filter(|h: HistoryView| h.server_id == server_id@).map_values(
                |h: HistoryView| h.old_id,
            ),
    {
        let ghost hs = self@.history;
        let ghost p = |h: HistoryView| h.server_id == server_id@;
        let mut out: Vec<String> = Vec::new();
        let n = self.history.len();
        let mut i: usize = 0;
        proof {
            assert(hs.take(0) =~= Seq::<HistoryView>::empty());
            assert(hs.take(0).filter(p) =~= Seq::<HistoryView>::empty());
            assert(out@.map_values(|s: String| s@) =~= Seq::<Seq<char>>::empty());
        }
        while i < n
            invariant
                n == self.history@.len(),
                hs == self@.history,
                hs.len() == n,
                p == (|h: HistoryView| h.server_id == server_id@),
                i <= n,
                out@.map_values(|s: String| s@) == hs.take(i as int).filter(p).map_values(|h: HistoryView| h.old_id),
            decreases n - i,
        {
            let h = &self.history[i];
            proof {
                assert(hs[i as int] == h@);
                assert(hs.take(i + 1).drop_last() =~= hs.take(i as int));
                reveal(Seq::filter);
            }
            if crate::text::str_eq(h.server_id.as_str(), server_id) {
                let c = h.old_id.clone();
                proof {
                    assert(out@.push(c).map_values(|s: String| s@) =~= out@.map_values(|s: String| s@).push(c@));
                    assert(hs.take(i + 1).filter(p) == hs.take(i as int).filter(p).push(hs[i as int]));
                    assert(hs.take(i as int).filter(p).push(hs[i as int]).map_values(|h: HistoryView| h.old_id)
                        =~= hs.take(i as int).filter(p).map_values(|h: HistoryView| h.old_id).push(h@.old_id));
                }
                out.push(c);
            } else {
                proof {
                    assert(hs.take(i + 1).filter(p) == hs.take(i as int).filter(p));
                }
            }
            i = i + 1;
        }
        proof {
            assert(hs.take(n as int) =~= hs);
        }
        out
    }

    /// The id that replaced `old_id` on `server_id`, per the id history.
    pub fn lookup_new_id(&self, server_id: &str, old_id: &str) -> (r: Option<String>)
        ensures
            r matches Some(n) ==> history_pos(self@.history, server_id@, old_id@) matches Some(k)
                && self@.history[k].new_id == n@,
            r is None ==> history_pos(self@.history, server_id@, old_id@) is None,
    {
        let ghost hs = self@.history;
        let ghost p = history_key(server_id@, old_id@);
        let n = self.history.len();
        let mut i: usize = 0;
        while i < n
            invariant
                n == self.history@.len(),
                hs == self@.history,
                hs.len() == n,
                p == history_key(server_id@, old_id@),
                i <= n,
                first_index(hs, p, 0) == first_index(hs, p, i as int),
            decreases n - i,
        {
            let h = &self.history[i];
            assert(hs[i as int] == h@);
            if crate::text::str_eq(h.server_id.as_str(), server_id) && crate::text::str_eq(h.old_id.as_str(), old_id) {
                return Some(h.new_id.clone());
            }
            i = i + 1;
        }
        None
    }
}

/// Reads of the id history.
pub struct TrackIdHistoryRepository<'a> {
    pub store: &'a LibraryStore,
}

impl<'a> TrackIdHistoryRepository<'a> {
    pub fn new(store: &'a LibraryStore) -> (r: TrackIdHistoryRepository<'a>)
        ensures
            r.store == store,
    {
        TrackIdHistoryRepository { store }
    }

    /// The id that replaced `old_id` on `server_id`; never an error.
    pub fn lookup_new_id(&self, server_id: &str, old_id: &str) -> (r: Result<Option<String>, String>)
        ensures
            r matches Ok(o) && match o {
                Some(n) => history_pos(self.store@.history, server_id@, old_id@) matches Some(k)
                    && self.store@.history[k].new_id == n@,
                None => history_pos(self.store@.history, server_id@, old_id@) is None,
            },
    {
        Ok(self.store.lookup_new_id(server_id, old_id))
    }
}

// ---------------------------------------------------------------------------
// Laws of the batch upsert

/// Keys of the track table are unique.
pub open spec fn tracks_unique(ts: Seq<TrackRowView>) -> bool {
    forall|i: int, j: int|
        0 <= i < j < ts.len() ==> !(#[trigger] ts[i].server_id == #[trigger] ts[j].server_id && ts[i].id == ts[j].id)
}

/// Whether some track is stored under `(server_id, id)`.
pub open spec fn has_track(ts: Seq<TrackRowView>, server_id: Seq<char>, id: Seq<char>) -> bool {
    exists|i: int| 0 <= i < ts.len() && #[trigger] ts[i].server_id == server_id && ts[i].id == id
}

pub proof fn lemma_track_pos_has(ts: Seq<TrackRowView>, server_id: Seq<char>, id: Seq<char>)
    ensures
        track_pos(ts, server_id, id) is Some <==> has_track(ts, server_id, id),
        track_pos(ts, server_id, id) matches Some(i) ==> 0 <= i < ts.len() && ts[i].server_id == server_id
            && ts[i].id == id,
{
    lemma_first_index(ts, track_key(server_id, id), 0);
    if has_track(ts, server_id, id) {
        let i = choose|i: int| 0 <= i < ts.len() && #[trigger] ts[i].server_id == server_id && ts[i].id == id;
        assert(track_key(server_id, id)(ts[i]));
    }
}

proof fn lemma_upsert_view(ts: Seq<TrackRowView>, r: TrackRowView, sparse: bool)
    requires
        tracks_unique(ts),
    ensures
        tracks_unique(upsert_view(ts, r, sparse)),
        has_track(upsert_view(ts, r, sparse), r.server_id, r.id),
        forall|k: int| 0 <= k < ts.len() && !(ts[k].server_id == r.server_id && ts[k].id == r.id)
            ==> #[trigger] upsert_view(ts, r, sparse)[k] == ts[k],
        upsert_view(ts, r, sparse).len() == ts.len() + (if has_track(ts, r.server_id, r.id) { 0int } else { 1int }),
{
    lemma_track_pos_has(ts, r.server_id, r.id);
    let u = upsert_view(ts, r, sparse);
    match track_pos(ts, r.server_id, r.id) {
        Some(i) => {
            assert(u[i].server_id == r.server_id && u[i].id == r.id);
        },
        None => {
            assert(u[ts.len() as int] == r);
        },
    }
}

proof fn lemma_delete_view(ts: Seq<TrackRowView>, server_id: Seq<char>, id: Seq<char>)
    requires
        tracks_unique(ts),
    ensures
        tracks_unique(delete_view(ts, server_id, id)),
        !has_track(delete_view(ts, server_id, id), server_id, id),
        forall|s: Seq<char>, x: Seq<char>| !(s == server_id && x == id) ==> (has_track(delete_view(ts, server_id, id), s, x) <==> has_track(ts, s, x)),
        delete_view(ts, server_id, id).len() == ts.len() - (if has_track(ts, server_id, id) { 1int } else { 0int }),
{
    lemma_track_pos_has(ts, server_id, id);
    let d = delete_view(ts, server_id, id);
    match track_pos(ts, server_id, id) {
        Some(i) => {
            assert forall|x: int, y: int| 0 <= x < y < d.len() implies !(#[trigger] d[x].server_id == #[trigger] d[y].server_id && d[x].id == d[y].id) by {
                let xa = if x < i { x } else { x + 1 };
                let ya = if y < i { y } else { y + 1 };
                assert(d[x] == ts[xa]);
                assert(d[y] == ts[ya]);
            }
            assert(!has_track(d, server_id, id)) by {
                if has_track(d, server_id, id) {
                    let x = choose|x: int| 0 <= x < d.len() && #[trigger] d[x].server_id == server_id && d[x].id == id;
                    let xa = if x < i { x } else { x + 1 };
                    assert(d[x] == ts[xa]);
                }
            }
            assert forall|s: Seq<char>, x: Seq<char>| !(s == server_id && x == id) implies (has_track(d, s, x) <==> has_track(ts, s, x)) by {
                if has_track(ts, s, x) {
                    let k = choose|k: int| 0 <= k < ts.len() && #[trigger] ts[k].server_id == s && ts[k].id == x;
                    assert(k != i);
                    let kd = if k < i { k } else { k - 1 };
                    assert(d[kd] == ts[k]);
                }
                if has_track(d, s, x) {
                    let k = choose|k: int| 0 <= k < d.len() && #[trigger] d[k].server_id == s && d[k].id == x;
                    let ka = if k < i { k } else { k + 1 };
                    assert(d[k] == ts[ka]);
                }
            }
        },
        None => {},
    }
}

/// Remap switched off never touches the id history or the child rows and
/// reports no remap, whatever the batch holds (hash collisions included).
pub proof fn law_stable_ids_never_remap(st: StoreView, rows: Seq<TrackRowView>, sparse: bool)
    ensures
        apply_rows(st, rows, false, sparse).1.len() == 0,
        apply_rows(st, rows, false, sparse).0.history == st.history,
        apply_rows(st, rows, false, sparse).0.children == st.children,
    decreases rows.len(),
{
    if rows.len() > 0 {
        law_stable_ids_never_remap(st, rows.drop_last(), sparse);
    }
}

/// A row without a non-empty content hash and without a non-empty server path
/// is never taken for a remap of another row: empty-string sentinels never
/// collide.
pub proof fn law_identityless_row_never_remaps(st: StoreView, r: TrackRowView, unstable: bool, sparse: bool)
    requires
        eligible(r.content_hash) is None,
        eligible(r.server_path) is None,
    ensures
        apply_row(st, r, unstable, sparse).1 is None,
        apply_row(st, r, unstable, sparse).0.history == st.history,
        apply_row(st, r, unstable, sparse).0.children == st.children,
{
}

/// The id a row replaces is always that of another live row of the same
/// server, under a different id, sharing the row's non-empty content hash or
/// non-empty server path: a row never remaps onto its own id.
pub proof fn law_remap_target_is_another_live_row(ts: Seq<TrackRowView>, r: TrackRowView)
    ensures
        remap_target(ts, r) matches Some(o) ==> o != r.id && exists|i: int|
            0 <= i < ts.len() && #[trigger] ts[i].id == o && ts[i].server_id == r.server_id && !ts[i].deleted
                && ((eligible(r.content_hash) is Some && ts[i].content_hash == eligible(r.content_hash))
                    || (eligible(r.server_path) is Some && ts[i].server_path == eligible(r.server_path))),
{
    match eligible(r.content_hash) {
        Some(h) => lemma_first_index(ts, hash_match(r, h), 0),
        None => {},
    }
    match eligible(r.server_path) {
        Some(p) => lemma_first_index(ts, path_match(r, p), 0),
        None => {},
    }
}

/// A hash match wins over a path match: when a live row of the server under
/// another id carries the incoming non-empty content hash, the remap targets
/// the first such row, whatever rows share the path.
pub proof fn law_hash_before_path(ts: Seq<TrackRowView>, r: TrackRowView, i: int)
    requires
        0 <= i < ts.len(),
        eligible(r.content_hash) is Some,
        hash_match(r, eligible(r.content_hash).unwrap())(ts[i]),
        forall|j: int| 0 <= j < i ==> !hash_match(r, eligible(r.content_hash).unwrap())(#[trigger] ts[j]),
    ensures
        remap_target(ts, r) == Some(ts[i].id),
{
    let h = eligible(r.content_hash).unwrap();
    lemma_first_index(ts, hash_match(r, h), 0);
    match first_index(ts, hash_match(r, h), 0) {
        Some(k) => {
            if k < i {
            } else if k > i {
            }
        },
        None => {},
    }
}

/// The path lookup is the fallback of the hash lookup: when no live track of
/// the row's server under another id carries the row's content hash (or the
/// row carries no non-empty hash), and the `i`-th track is the first live track
/// of that server under another id whose server path is the row's non-empty
/// path, then the row replaces that track, whatever hash the row carries.
pub proof fn law_path_fallback(st: StoreView, r: TrackRowView, i: int, sparse: bool)
    requires
        0 <= i < st.tracks.len(),
        r.server_path is Some,
        r.server_path->0.len() > 0,
        st.tracks[i].server_id == r.server_id,
        !st.tracks[i].deleted,
        st.tracks[i].id != r.id,
        st.tracks[i].server_path == r.server_path,
        forall|j: int|
            0 <= j < i ==> !(#[trigger] st.tracks[j].server_id == r.server_id && !st.tracks[j].deleted
                && st.tracks[j].id != r.id && st.tracks[j].server_path == r.server_path),
        forall|j: int|
            0 <= j < st.tracks.len() ==> !(#[trigger] st.tracks[j].server_id == r.server_id
                && !st.tracks[j].deleted && st.tracks[j].id != r.id && r.content_hash is Some
                && r.content_hash->0.len() > 0 && st.tracks[j].content_hash == r.content_hash),
    ensures
        remap_target(st.tracks, r) == Some(st.tracks[i].id),
        apply_row(st, r, true, sparse).1 == Some(
            RemapEntryView { server_id: r.server_id, old_id: st.tracks[i].id, new_id: r.id },
        ),
{
    let ts = st.tracks;
    match eligible(r.content_hash) {
        Some(h) => {
            lemma_first_index(ts, hash_match(r, h), 0);
            if let Some(k) = first_index(ts, hash_match(r, h), 0) {
                assert(hash_match(r, h)(ts[k]));
                assert(ts[k].content_hash == r.content_hash);
            }
        },
        None => {},
    }
    let p = r.server_path->0;
    lemma_first_index(ts, path_match(r, p), 0);
    assert(path_match(r, p)(ts[i]));
    match first_index(ts, path_match(r, p), 0) {
        Some(k) => {
            if k < i {
                assert(path_match(r, p)(ts[k]));
            } else if k > i {
            }
        },
        None => {},
    }
}

/// What a remap leaves behind: the old key is gone, the new key is stored, the
/// history maps the old id to the new one, no child row references the old id
/// any more, and the track count is that of a replacement when the new key was
/// not stored before.
pub proof fn law_remap_replaces_old_row(st: StoreView, r: TrackRowView, sparse: bool)
    requires
        store_wf(st),
        apply_row(st, r, true, sparse).1 is Some,
    ensures
        ({
            let (st2, e) = apply_row(st, r, true, sparse);
            let o = e->0.old_id;
            &&& e->0.server_id == r.server_id
            &&& e->0.new_id == r.id
            &&& o != r.id
            &&& !has_track(st2.tracks, r.server_id, o)
            &&& has_track(st2.tracks, r.server_id, r.id)
            &&& history_pos(st2.history, r.server_id, o) matches Some(k) && st2.history[k].new_id == r.id
            &&& forall|c: int| 0 <= c < st2.children.len() ==> !(#[trigger] st2.children[c].server_id == r.server_id
                && st2.children[c].track_id == o)
            &&& !has_track(st.tracks, r.server_id, r.id) ==> st2.tracks.len() == st.tracks.len()
        }),
{
    let ts = st.tracks;
    law_remap_target_is_another_live_row(ts, r);
    let o = remap_target(ts, r)->0;
    let raw = if sparse { remap_source_raw(ts, r.server_id, o, r.raw_json) } else { r.raw_json };
    let r2 = with_raw(r, raw);
    assert(tracks_unique(ts));
    lemma_upsert_view(ts, r2, sparse);
    let ts1 = upsert_view(ts, r2, sparse);
    lemma_delete_view(ts1, r.server_id, o);
    // the old key is stored before the delete
    let i = choose|i: int|
        0 <= i < ts.len() && #[trigger] ts[i].id == o && ts[i].server_id == r.server_id && !ts[i].deleted
            && ((eligible(r.content_hash) is Some && ts[i].content_hash == eligible(r.content_hash))
                || (eligible(r.server_path) is Some && ts[i].server_path == eligible(r.server_path)));
    assert(ts1[i] == ts[i]);
    assert(has_track(ts1, r.server_id, o));
    // the history row
    let h = HistoryView {
        server_id: r.server_id,
        old_id: o,
        new_id: r.id,
        content_hash: r.content_hash,
        server_path: r.server_path,
        remapped_at: r.synced_at,
    };
    let hs2 = history_upsert_view(st.history, h);
    lemma_first_index(st.history, history_key(r.server_id, o), 0);
    lemma_first_index(hs2, history_key(r.server_id, o), 0);
    match history_pos(st.history, r.server_id, o) {
        Some(k) => {
            assert(history_key(r.server_id, o)(hs2[k]));
        },
        None => {
            assert(history_key(r.server_id, o)(hs2[st.history.len() as int]));
        },
    }
    // the children
    let cs2 = retarget_view(st.children, r.server_id, o, r.id);
    assert forall|c: int| 0 <= c < cs2.len() implies !(#[trigger] cs2[c].server_id == r.server_id && cs2[c].track_id == o) by {
        assert(cs2[c] == retarget_child(st.children[c], r.server_id, o, r.id));
    }
}


/// An empty batch leaves the store as it is and reports no remap.
pub proof fn law_empty_batch_changes_nothing(st: StoreView, unstable: bool, sparse: bool)
    ensures
        apply_rows(st, Seq::empty(), unstable, sparse) == (st, Seq::<RemapEntryView>::empty()),
{
}

/// What one plain write stores can be read back: after the upsert of `r`
/// without remap, the row under `r`'s key is `r` (with the union of raw JSON
/// members when sparse and the key was stored), and no other key changes.
pub proof fn law_upsert_then_read(st: StoreView, r: TrackRowView, sparse: bool)
    requires
        store_wf(st),
    ensures
        ({
            let st2 = apply_row(st, r, false, sparse).0;
            &&& track_pos(st2.tracks, r.server_id, r.id) matches Some(i) && st2.tracks[i] == (
                match track_pos(st.tracks, r.server_id, r.id) {
                    Some(j) => if sparse {
                        with_raw(r, merge_raw(st.tracks[j].raw_json, r.raw_json))
                    } else {
                        r
                    },
                    None => r,
                })
            &&& forall|s: Seq<char>, x: Seq<char>| !(s == r.server_id && x == r.id)
                ==> (has_track(st2.tracks, s, x) <==> has_track(st.tracks, s, x))
            &&& st2.history == st.history
            &&& st2.children == st.children
        }),
{
    let ts = st.tracks;
    assert(with_raw(r, r.raw_json) == r);
    lemma_upsert_view(ts, r, sparse);
    let u = upsert_view(ts, r, sparse);
    lemma_track_pos_has(ts, r.server_id, r.id);
    lemma_first_index(ts, track_key(r.server_id, r.id), 0);
    lemma_first_index(u, track_key(r.server_id, r.id), 0);
    match track_pos(ts, r.server_id, r.id) {
        Some(j) => {
            assert(track_key(r.server_id, r.id)(u[j]));
            match track_pos(u, r.server_id, r.id) {
                Some(i) => {
                    if i < j {
                        assert(u[i] == ts[i]);
                    }
                },
                None => {},
            }
        },
        None => {
            assert(track_key(r.server_id, r.id)(u[ts.len() as int]));
            match track_pos(u, r.server_id, r.id) {
                Some(i) => {
                    if i < ts.len() {
                        assert(u[i] == ts[i]);
                    }
                },
                None => {},
            }
        },
    }
    assert forall|s: Seq<char>, x: Seq<char>| !(s == r.server_id && x == r.id) implies (has_track(u, s, x) <==> has_track(ts, s, x)) by {
        if has_track(ts, s, x) {
            let k = choose|k: int| 0 <= k < ts.len() && #[trigger] ts[k].server_id == s && ts[k].id == x;
            assert(u[k] == ts[k]);
        }
        if has_track(u, s, x) {
            let k = choose|k: int| 0 <= k < u.len() && #[trigger] u[k].server_id == s && u[k].id == x;
            if k < ts.len() {
                assert(u[k] == ts[k] || (u[k].server_id == r.server_id && u[k].id == r.id));
            }
        }
    }
}

/// A sparse row that replaces an old id is written with its payload merged
/// onto the old row's payload, before the old row is removed: members the
/// sparse payload omits survive the remap.
pub proof fn law_sparse_remap_merges_from_old_row(st: StoreView, r: TrackRowView)
    requires
        store_wf(st),
        apply_row(st, r, true, true).1 is Some,
        !has_track(st.tracks, r.server_id, r.id),
    ensures
        ({
            let (st2, e) = apply_row(st, r, true, true);
            let o = e->0.old_id;
            &&& track_pos(st.tracks, r.server_id, o) matches Some(j)
            &&& track_pos(st2.tracks, r.server_id, r.id) matches Some(i)
            &&& st2.tracks[i] == with_raw(r, merge_raw(st.tracks[j].raw_json, r.raw_json))
        }),
{
    let ts = st.tracks;
    law_remap_target_is_another_live_row(ts, r);
    let o = remap_target(ts, r)->0;
    let i0 = choose|i: int|
        0 <= i < ts.len() && #[trigger] ts[i].id == o && ts[i].server_id == r.server_id && !ts[i].deleted
            && ((eligible(r.content_hash) is Some && ts[i].content_hash == eligible(r.content_hash))
                || (eligible(r.server_path) is Some && ts[i].server_path == eligible(r.server_path)));
    assert(has_track(ts, r.server_id, o));
    lemma_track_pos_has(ts, r.server_id, o);
    let j = track_pos(ts, r.server_id, o)->0;
    let raw = merge_raw(ts[j].raw_json, r.raw_json);
    let r2 = with_raw(r, raw);
    lemma_track_pos_has(ts, r.server_id, r.id);
    let ts1 = upsert_view(ts, r2, true);
    assert(ts1 == ts.push(r2));
    lemma_first_index(ts, track_key(r.server_id, o), 0);
    lemma_first_index(ts1, track_key(r.server_id, o), 0);
    assert(track_key(r.server_id, o)(ts1[j]));
    let k = track_pos(ts1, r.server_id, o)->0;
    assert(k == j) by {
        if k < j {
            assert(ts1[k] == ts[k]);
        }
    }
    let d = delete_view(ts1, r.server_id, o);
    assert(d == ts1.remove(j));
    let last = ts.len() - 1;
    assert(d[last] == r2);
    lemma_first_index(d, track_key(r.server_id, r.id), 0);
    assert(track_key(r.server_id, r.id)(d[last]));
    let i = track_pos(d, r.server_id, r.id)->0;
    assert(i == last) by {
        if i < last {
            let a = if i < j { i } else { i + 1 };
            assert(d[i] == ts[a]);
            assert(ts[a].server_id == r.server_id && ts[a].id == r.id);
            assert(has_track(ts, r.server_id, r.id));
        }
    }
}

} // verus!

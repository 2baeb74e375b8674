//! The decisions of the delta syncs: which rows of a fetched page are written,
//! what is counted, and which page comes next. Fetching pages is left to the
//! caller.
use vstd::prelude::*;
use crate::json::{Json, JsonValue};
use crate::mapping::{navidrome_row_spec, navidrome_song_to_track_row, album_track_rows, Album, subsonic_row_spec, album_song_raw, values_view};
use crate::repos::{TrackRepository, TrackRow, TrackRowView, apply_rows, rows_view, entries_view};

verus! {

// ---------------------------------------------------------------------------
// N1: Navidrome native `/api/song`, newest `updated_at` first

/// Whether a row was last updated on the server before the local watermark.
pub open spec fn older_than(row: TrackRowView, watermark: Option<i64>) -> bool {
    match (watermark, row.server_updated_at) {
        (Some(w), Some(u)) => u < w,
        _ => false,
    }
}

/// The first `n` songs of a page, projected: the rows kept for writing, in
/// order, and whether a row older than the watermark was met (and skipped).
/// Songs without a string id are skipped.
pub open spec fn n1_scan(
    server_id: Seq<char>,
    page: Seq<Json>,
    durations: Seq<i64>,
    synced_at: i64,
    scope: Option<Seq<char>>,
    watermark: Option<i64>,
    n: int,
) -> (Seq<TrackRowView>, bool)
    decreases n,
{
    if n <= 0 {
        (Seq::empty(), false)
    } else {
        let (kept, crossed) = n1_scan(server_id, page, durations, synced_at, scope, watermark, n - 1);
        match navidrome_row_spec(server_id, page[n - 1], synced_at, scope, durations[n - 1]) {
            None => (kept, crossed),
            Some(row) => if older_than(row, watermark) {
                (kept, true)
            } else {
                (kept.push(row), crossed)
            },
        }
    }
}

/// Paging state of the N1 delta: the next window to fetch and the counts.
pub struct N1Delta {
    pub offset: u32,
    pub batch_size: u32,
    pub changed_count: u32,
    pub remapped_count: u32,
    pub finished: bool,
}

pub open spec fn opt_str_view(o: Option<&str>) -> Option<Seq<char>> {
    match o {
        Some(t) => Some(t@),
        None => None,
    }
}

impl N1Delta {
    /// A delta that starts at offset 0.
    pub fn new(batch_size: u32) -> (r: N1Delta)
        ensures
            r.offset == 0,
            r.batch_size == batch_size,
            r.changed_count == 0,
            r.remapped_count == 0,
            !r.finished,
    {
        N1Delta { offset: 0, batch_size, changed_count: 0, remapped_count: 0, finished: false }
    }

    /// The end of the next window to fetch: `offset + batch_size`, saturating.
    pub fn window_end(&self) -> (r: u32)
        ensures
            r == self.offset.saturating_add(self.batch_size),
    {
        self.offset.saturating_add(self.batch_size)
    }

    /// Handles the fetched window `page` (with the whole-second duration of each
    /// song in `durations`): an empty page ends the delta; otherwise the rows
    /// not older than `watermark` are written as a sparse batch with remap, the
    /// counts grow (saturating), and the delta ends when a row older than the
    /// watermark was met or the page was short; else the next window follows.
    pub fn ingest_page(
        &mut self,
        repo: &mut TrackRepository,
        page: &Vec<JsonValue>,
        durations: &Vec<i64>,
        server_id: &str,
        synced_at: i64,
        library_scope: Option<&str>,
        watermark: Option<i64>,
        unstable_track_ids: bool,
    )
        requires
            old(repo).wf(),
            durations@.len() == page@.len(),
        ensures
            final(repo).wf(),
            page@.len() == 0 ==> final(repo)@ == old(repo)@ && final(self).finished
                && final(self).offset == old(self).offset
                && final(self).changed_count == old(self).changed_count
                && final(self).remapped_count == old(self).remapped_count,
            page@.len() > 0 ==> ({
                let (kept, crossed) = n1_scan(
                    server_id@,
                    values_view(page@),
                    durations@,
                    synced_at,
                    opt_str_view(library_scope),
                    watermark,
                    page@.len() as int,
                );
                let (st, es) = apply_rows(old(repo)@, kept, unstable_track_ids, true);
                &&& kept.len() > 0 ==> final(repo)@ == st
                &&& kept.len() == 0 ==> final(repo)@ == old(repo)@
                &&& final(self).changed_count == if kept.len() > 0 {
                    old(self).changed_count.saturating_add(kept.len() as u32)
                } else {
                    old(self).changed_count
                }
                &&& final(self).remapped_count == if kept.len() > 0 {
                    old(self).remapped_count.saturating_add(es.len() as u32)
                } else {
                    old(self).remapped_count
                }
                &&& final(self).finished == (crossed || (page@.len() as u32) < old(self).batch_size)
                &&& final(self).offset == old(self).offset.saturating_add(old(self).batch_size)
            }),
            final(self).batch_size == old(self).batch_size,
    {
        if page.len() == 0 {
            self.finished = true;
            return;
        }
        let ghost pv = values_view(page@);
        let ghost scope = opt_str_view(library_scope);
        let mut rows: Vec<TrackRow> = Vec::new();
        let mut crossed = false;
        let n = page.len();
        let mut i: usize = 0;
        while i < n
            invariant
                n == page@.len(),
                n == durations@.len(),
                pv == values_view(page@),
                scope == opt_str_view(library_scope),
                i <= n,
                (rows_view(rows@), crossed) == n1_scan(server_id@, pv, durations@, synced_at, scope, watermark, i as int),
            decreases n - i,
        {
            let mapped = navidrome_song_to_track_row(server_id, &page[i], synced_at, library_scope, durations[i]);
            match mapped {
                Some(row) => {
                    let older = match (watermark, row.server_updated_at) {
                        (Some(w), Some(u)) => u < w,
                        _ => false,
                    };
                    if older {
                        crossed = true;
                    } else {
                        proof {
                            assert(rows_view(rows@.push(row)) =~= rows_view(rows@).push(row@));
                        }
                        rows.push(row);
                    }
                },
                None => {},
            }
            i = i + 1;
        }
        if rows.len() > 0 {
            let stats = repo.upsert_sparse_batch_with_remap(&rows, unstable_track_ids);
            match stats {
                Ok(stats) => {
                    self.changed_count = self.changed_count.saturating_add(rows.len() as u32);
                    self.remapped_count = self.remapped_count.saturating_add(stats.remapped.len() as u32);
                    proof {
                        assert(entries_view(stats.remapped@).len() == stats.remapped@.len());
                    }
                },
                Err(_) => {},
            }
        }
        self.finished = crossed || (page.len() as u32) < self.batch_size;
        self.offset = self.offset.saturating_add(self.batch_size);
    }
}


// ---------------------------------------------------------------------------
// S2: Subsonic album lists `newest` then `recent`, album by album

/// The album ids of a page that are fetched, in order: those not seen before
/// in this delta (nor earlier on the same page); and the seen ids afterwards.
pub open spec fn fresh_ids(seen: Seq<Seq<char>>, ids: Seq<Seq<char>>) -> (Seq<Seq<char>>, Seq<Seq<char>>)
    decreases ids.len(),
{
    if ids.len() == 0 {
        (Seq::empty(), seen)
    } else {
        let (fresh, seen1) = fresh_ids(seen, ids.drop_last());
        if seen1.contains(ids.last()) {
            (fresh, seen1)
        } else {
            (fresh.push(ids.last()), seen1.push(ids.last()))
        }
    }
}

/// The offset of the page after one of `page_len` albums at `offset`, when it
/// fits in `u32`.
pub open spec fn next_offset_spec(offset: u32, page_len: int) -> Option<u32> {
    if offset + page_len <= u32::MAX {
        Some((offset + page_len) as u32)
    } else {
        None
    }
}

/// Paging state of the S2 delta.
pub struct S2Delta {
    /// 0 for `newest`, 1 for `recent`, 2 when both lists are done.
    pub list_index: u32,
    pub pages_in_list: u32,
    pub offset: u32,
    pub batch_size: u32,
    pub max_pages_per_list: u32,
    pub changed_count: u32,
    pub remapped_count: u32,
    /// The album ids already handled in this delta.
    pub seen: Vec<String>,
}

pub open spec fn strings_view(v: Seq<String>) -> Seq<Seq<char>> {
    v.map_values(|s: String| s@)
}

/// Whether `v` holds a string equal to `s`.
pub fn contains_string(v: &Vec<String>, s: &String) -> (r: bool)
    ensures
        r == strings_view(v@).contains(s@),
{
    let m = v.len();
    let mut j: usize = 0;
    while j < m
        invariant
            m == v@.len(),
            j <= m,
            forall|k: int| 0 <= k < j ==> #[trigger] v@[k]@ != s@,
        decreases m - j,
    {
        if v[j] == *s {
            assert(strings_view(v@)[j as int] == s@);
            return true;
        }
        j = j + 1;
    }
    assert forall|k: int| 0 <= k < strings_view(v@).len() implies strings_view(v@)[k] != s@ by {
        assert(strings_view(v@)[k] == v@[k]@);
    }
    false
}

impl S2Delta {
    /// The album ids already handled in this delta.
    pub open spec fn seen_view(&self) -> Seq<Seq<char>> {
        strings_view(self.seen@)
    }

    /// A delta that starts with the first page of `newest`.
    pub fn new(batch_size: u32, max_pages_per_list: u32) -> (r: S2Delta)
        ensures
            r.list_index == 0,
            r.pages_in_list == 0,
            r.offset == 0,
            r.batch_size == batch_size,
            r.max_pages_per_list == max_pages_per_list,
            r.changed_count == 0,
            r.remapped_count == 0,
            r.seen_view().len() == 0,
    {
        let r = S2Delta {
            list_index: 0,
            pages_in_list: 0,
            offset: 0,
            batch_size,
            max_pages_per_list,
            changed_count: 0,
            remapped_count: 0,
            seen: Vec::new(),
        };
        assert(r.seen_view() =~= Seq::<Seq<char>>::empty());
        r
    }

    /// The album list to fetch next (`"newest"` or `"recent"`), none when both
    /// are done.
    pub fn next_list_type(&self) -> (r: Option<&'static str>)
        ensures
            self.list_index == 0 ==> (r matches Some(t) && t@ == "newest"@),
            self.list_index == 1 ==> (r matches Some(t) && t@ == "recent"@),
            self.list_index >= 2 ==> r is None,
    {
        if self.list_index == 0 {
            Some("newest")
        } else if self.list_index == 1 {
            Some("recent")
        } else {
            None
        }
    }

    /// Handles a fetched page of album ids of the current list: returns the
    /// albums to fetch now (per `fresh_ids`), moves the offset past the page,
    /// and goes on to the next list after an empty page or the last page
    /// allowed per list.
    pub fn on_album_page(&mut self, album_ids: &Vec<String>) -> (r: Vec<String>)
        requires
            old(self).list_index < 2,
            old(self).pages_in_list < old(self).max_pages_per_list,
        ensures
            album_ids@.len() == 0 ==> strings_view(r@).len() == 0 && final(self).list_index == old(self).list_index + 1
                && final(self).pages_in_list == 0 && final(self).offset == 0
                && final(self).seen_view() == old(self).seen_view(),
            album_ids@.len() > 0 ==> ({
                let (fresh, seen) = fresh_ids(old(self).seen_view(), strings_view(album_ids@));
                let next = match next_offset_spec(old(self).offset, album_ids@.len() as int) {
                    Some(o) => o,
                    None => old(self).offset,
                };
                let last_page = old(self).pages_in_list + 1 == old(self).max_pages_per_list;
                &&& strings_view(r@) == fresh
                &&& final(self).seen_view() == seen
                &&& final(self).list_index == if last_page { (old(self).list_index + 1) as u32 } else { old(self).list_index }
                &&& final(self).pages_in_list == if last_page { 0 } else { (old(self).pages_in_list + 1) as u32 }
                &&& final(self).offset == if last_page { 0 } else { next }
            }),
            final(self).batch_size == old(self).batch_size,
            final(self).max_pages_per_list == old(self).max_pages_per_list,
            final(self).changed_count == old(self).changed_count,
            final(self).remapped_count == old(self).remapped_count,
    {
        if album_ids.len() == 0 {
            self.list_index = self.list_index + 1;
            self.pages_in_list = 0;
            self.offset = 0;
            let r: Vec<String> = Vec::new();
            assert(strings_view(r@) =~= Seq::<Seq<char>>::empty());
            return r;
        }
        let ghost ids = strings_view(album_ids@);
        let ghost seen0 = self.seen_view();
        let mut fresh: Vec<String> = Vec::new();
        let n = album_ids.len();
        let mut i: usize = 0;
        proof {
            assert(ids.take(0) =~= Seq::<Seq<char>>::empty());
            assert(strings_view(fresh@) =~= Seq::<Seq<char>>::empty());
        }
        while i < n
            invariant
                n == album_ids@.len(),
                ids == strings_view(album_ids@),
                i <= n,
                seen0 == strings_view(old(self).seen@),
                (strings_view(fresh@), strings_view(self.seen@)) == fresh_ids(seen0, ids.take(i as int)),
                self.list_index == old(self).list_index,
                self.pages_in_list == old(self).pages_in_list,
                self.offset == old(self).offset,
                self.batch_size == old(self).batch_size,
                self.max_pages_per_list == old(self).max_pages_per_list,
                self.changed_count == old(self).changed_count,
                self.remapped_count == old(self).remapped_count,
                self.list_index < 2,
                self.pages_in_list < self.max_pages_per_list,
            decreases n - i,
        {
            let id = &album_ids[i];
            proof {
                assert(ids.take(i + 1).drop_last() =~= ids.take(i as int));
                assert(ids.take(i + 1).last() == id@);
            }
            let found = contains_string(&self.seen, id);
            if !found {
                let c1 = id.clone();
                let c2 = id.clone();
                proof {
                    assert(strings_view(fresh@.push(c1)) =~= strings_view(fresh@).push(id@));
                    assert(strings_view(self.seen@.push(c2)) =~= strings_view(self.seen@).push(id@));
                }
                fresh.push(c1);
                self.seen.push(c2);
            }
            i = i + 1;
        }
        proof {
            assert(ids.take(n as int) =~= ids);
        }
        let next = if (n as u64) <= (u32::MAX as u64) - (self.offset as u64) {
            ((self.offset as u64) + (n as u64)) as u32
        } else {
            self.offset
        };
        let ghost expected_next = match next_offset_spec(old(self).offset, n as int) {
            Some(o) => o,
            None => old(self).offset,
        };
        assert(next == expected_next);
        if self.pages_in_list + 1 == self.max_pages_per_list {
            self.list_index = self.list_index + 1;
            self.pages_in_list = 0;
            self.offset = 0;
        } else {
            self.pages_in_list = self.pages_in_list + 1;
            self.offset = next;
        }
        fresh
    }

    /// Writes the tracks of a fetched album (see `album_track_rows`) as a batch
    /// with remap and counts them (saturating).
    pub fn ingest_album(
        &mut self,
        repo: &mut TrackRepository,
        server_id: &str,
        album: &Album,
        raw_album: &JsonValue,
        serialized_songs: &Vec<JsonValue>,
        synced_at: i64,
        library_scope: Option<&str>,
        unstable_track_ids: bool,
    )
        requires
            old(repo).wf(),
            serialized_songs@.len() == album.song@.len(),
        ensures
            final(repo).wf(),
            album.song@.len() == 0 ==> final(repo)@ == old(repo)@ && final(self).changed_count == old(self).changed_count
                && final(self).remapped_count == old(self).remapped_count,
            album.song@.len() > 0 ==> exists|rows: Seq<TrackRowView>| {
                &&& rows.len() == album.song@.len()
                &&& forall|i: int| 0 <= i < rows.len() ==> #[trigger] rows[i] == subsonic_row_spec(
                    server_id@,
                    album.song@[i],
                    album_song_raw(raw_album@, i, values_view(serialized_songs@)),
                    synced_at,
                    opt_str_view(library_scope),
                )
                &&& final(repo)@ == apply_rows(old(repo)@, rows, unstable_track_ids, false).0
                &&& final(self).changed_count == old(self).changed_count.saturating_add(rows.len() as u32)
                &&& final(self).remapped_count == old(self).remapped_count.saturating_add(
                    apply_rows(old(repo)@, rows, unstable_track_ids, false).1.len() as u32,
                )
            },
            final(self).list_index == old(self).list_index,
            final(self).pages_in_list == old(self).pages_in_list,
            final(self).offset == old(self).offset,
            final(self).seen_view() == old(self).seen_view(),
    {
        let rows = album_track_rows(server_id, album, raw_album, synced_at, library_scope, serialized_songs);
        if rows.len() > 0 {
            let stats = repo.upsert_batch_with_remap(&rows, unstable_track_ids);
            match stats {
                Ok(stats) => {
                    self.changed_count = self.changed_count.saturating_add(rows.len() as u32);
                    self.remapped_count = self.remapped_count.saturating_add(stats.remapped.len() as u32);
                    proof {
                        assert(entries_view(stats.remapped@).len() == stats.remapped@.len());
                        let rv = rows_view(rows@);
                        assert forall|i: int| 0 <= i < rv.len() implies #[trigger] rv[i] == subsonic_row_spec(
                            server_id@,
                            album.song@[i],
                            album_song_raw(raw_album@, i, values_view(serialized_songs@)),
                            synced_at,
                            opt_str_view(library_scope),
                        ) by {
                            assert(rv[i] == rows@[i]@);
                        }
                    }
                },
                Err(_) => {},
            }
        }
    }
}

} // verus!

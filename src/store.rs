//! The command store: one row per distinct command with its usage, and one
//! sync cursor per shell. The host persists it; this is its logic.
use vstd::prelude::*;
use vstd::hash_map::StringHashMap;
use crate::history::{entries, EntryV, HistoryEntry};

verus! {

/// A stored command.
#[derive(Debug, Clone)]
pub struct CommandRow {
    pub id: i64,
    pub command: String,
    pub frequency: u32,
    pub last_used: Option<i64>,
    pub shell_source: String,
}

/// How far a shell's history has been read.
#[derive(Debug, Clone)]
pub struct SyncState {
    pub shell_source: String,
    pub last_sync_timestamp: i64,
    pub last_line_count: usize,
}

/// A row as a value: command, frequency, last use, shell, id.
pub type RowV = (Seq<char>, nat, Option<i64>, Seq<char>, i64);

/// A sync cursor as a value: shell, time of the last sync, lines read then.
pub type SyncV = (Seq<char>, i64, nat);

/// The store as a value: rows, sync cursors, the next id to hand out.
pub type StoreV = (Seq<RowV>, Seq<SyncV>, i64);

impl View for CommandRow {
    type V = RowV;

    open spec fn view(&self) -> RowV {
        (self.command@, self.frequency as nat, self.last_used, self.shell_source@, self.id)
    }
}

impl View for SyncState {
    type V = SyncV;

    open spec fn view(&self) -> SyncV {
        (self.shell_source@, self.last_sync_timestamp, self.last_line_count as nat)
    }
}

pub open spec fn rows_view(v: Seq<CommandRow>) -> Seq<RowV> {
    v.map_values(|r: CommandRow| r@)
}

pub open spec fn syncs_view(v: Seq<SyncState>) -> Seq<SyncV> {
    v.map_values(|s: SyncState| s@)
}

/// No two rows hold the same command.
pub open spec fn unique_commands(rows: Seq<RowV>) -> bool {
    forall|i: int, j: int| 0 <= i < j < rows.len() ==> rows[i].0 != rows[j].0
}

/// Rows that a store can hold: distinct commands, each used at least once,
/// ids below the largest.
pub open spec fn rows_valid(rows: Seq<RowV>) -> bool {
    &&& unique_commands(rows)
    &&& forall|i: int| 0 <= i < rows.len() ==> (#[trigger] rows[i]).1 >= 1 && rows[i].4 < i64::MAX
}

pub open spec fn find_row(rows: Seq<RowV>, c: Seq<char>) -> Option<int> {
    if exists|i: int| 0 <= i < rows.len() && rows[i].0 == c {
        Some(choose|i: int| 0 <= i < rows.len() && rows[i].0 == c)
    } else {
        None
    }
}

/// One more use, up to the largest `u32`.
pub open spec fn bump(f: nat) -> nat {
    if f < u32::MAX {
        f + 1
    } else {
        f
    }
}

/// A command seen again: one more use and the given last use; or a new row.
pub open spec fn upsert(m: StoreV, c: Seq<char>, ts: Option<i64>, shell: Seq<char>) -> StoreV {
    match find_row(m.0, c) {
        Some(i) => (m.0.update(i, (c, bump(m.0[i].1), ts, m.0[i].3, m.0[i].4)), m.1, m.2),
        None => (m.0.push((c, 1, ts, shell, m.2)), m.1, (m.2 + 1) as i64),
    }
}

pub open spec fn upsert_all(m: StoreV, es: Seq<EntryV>, shell: Seq<char>) -> StoreV
    decreases es.len(),
{
    if es.len() == 0 {
        m
    } else {
        let p = upsert_all(m, es.drop_last(), shell);
        upsert(p, es.last().0, es.last().1, shell)
    }
}

/// Entry `i` is new since a sync at `last_ts` that read `last_count` lines:
/// by its timestamp if it has one, else by its position.
pub open spec fn is_new(e: EntryV, i: int, last_ts: i64, last_count: nat) -> bool {
    match e.1 {
        Some(t) => t > last_ts,
        None => i >= last_count,
    }
}

pub open spec fn filter_new(h: Seq<EntryV>, last_ts: i64, last_count: nat) -> Seq<EntryV>
    decreases h.len(),
{
    if h.len() == 0 {
        seq![]
    } else {
        let f = filter_new(h.drop_last(), last_ts, last_count);
        if is_new(h.last(), h.len() - 1, last_ts, last_count) {
            f.push(h.last())
        } else {
            f
        }
    }
}

/// The cursor of `shell`: `(0, 0)` before its first sync.
pub open spec fn cursor_of(syncs: Seq<SyncV>, shell: Seq<char>) -> (i64, nat) {
    if exists|i: int| 0 <= i < syncs.len() && syncs[i].0 == shell {
        let i = choose|i: int| 0 <= i < syncs.len() && syncs[i].0 == shell;
        (syncs[i].1, syncs[i].2)
    } else {
        (0, 0)
    }
}

pub open spec fn set_cursor(syncs: Seq<SyncV>, shell: Seq<char>, now: i64, count: nat) -> Seq<SyncV> {
    if exists|i: int| 0 <= i < syncs.len() && syncs[i].0 == shell {
        let i = choose|i: int| 0 <= i < syncs.len() && syncs[i].0 == shell;
        syncs.update(i, (shell, now, count))
    } else {
        syncs.push((shell, now, count))
    }
}

pub open spec fn new_entries(m: StoreV, shell: Seq<char>, h: Seq<EntryV>) -> Seq<EntryV> {
    let c = cursor_of(m.1, shell);
    filter_new(h, c.0, c.1)
}

/// A sync of `shell`'s history `h` at time `now`: its new entries upserted,
/// then its cursor set to `now` and the number of entries read.
pub open spec fn sync_spec(m: StoreV, shell: Seq<char>, h: Seq<EntryV>, now: i64) -> StoreV {
    let u = upsert_all(m, new_entries(m, shell, h), shell);
    (u.0, set_cursor(u.1, shell, now, h.len()), u.2)
}

/// Room for the ids that a sync may hand out.
pub open spec fn sync_fits(m: StoreV, shell: Seq<char>, h: Seq<EntryV>) -> bool {
    m.2 + new_entries(m, shell, h).len() <= i64::MAX
}

pub open spec fn usage_shell() -> Seq<char> {
    seq!['m', 'u', 'x']
}

/// A command used now: one more use, last used now; a new row if unknown.
pub open spec fn usage_spec(m: StoreV, c: Seq<char>, now: i64) -> StoreV {
    upsert(m, c, Some(now), usage_shell())
}

/// No two cursors are for the same shell.
pub open spec fn unique_shells(syncs: Seq<SyncV>) -> bool {
    forall|i: int, j: int| 0 <= i < j < syncs.len() ==> syncs[i].0 != syncs[j].0
}

/// Largest id among the rows, 0 if none.
pub open spec fn max_id(rows: Seq<RowV>) -> int
    decreases rows.len(),
{
    if rows.len() == 0 {
        0
    } else {
        let m = max_id(rows.drop_last());
        if rows.last().4 > m {
            rows.last().4 as int
        } else {
            m
        }
    }
}

/// Errors of the store.
#[derive(Debug, Clone, Copy, PartialEq, Eq, Structural)]
pub enum StoreError {
    /// No id is left for a new row.
    IdsExhausted,
}

/// The command table and the sync cursors.
pub struct CommandStore {
    rows: Vec<CommandRow>,
    index: StringHashMap<usize>,
    syncs: Vec<SyncState>,
    next_id: i64,
}

impl CommandStore {
    pub closed spec fn model(&self) -> StoreV {
        (rows_view(self.rows@), syncs_view(self.syncs@), self.next_id)
    }

    pub closed spec fn wf(&self) -> bool {
        &&& rows_valid(rows_view(self.rows@))
        &&& forall|i: int|
            0 <= i < self.rows@.len() ==> self.index@.contains_key(#[trigger] self.rows@[i].command@)
                && self.index@[self.rows@[i].command@] == i
        &&& forall|k: Seq<char>|
            #[trigger] self.index@.contains_key(k) ==> self.index@[k] < self.rows@.len()
                && self.rows@[self.index@[k] as int].command@ == k
        &&& forall|i: int| 0 <= i < self.rows@.len() ==> (#[trigger] self.rows@[i]).id < self.next_id
        &&& 1 <= self.next_id
        &&& unique_shells(syncs_view(self.syncs@))
    }

    /// An empty store.
    pub fn new() -> (r: Self)
        ensures
            r.wf(),
            r.model() == (Seq::<RowV>::empty(), Seq::<SyncV>::empty(), 1i64),
    {
        let r = CommandStore { rows: Vec::new(), index: StringHashMap::new(), syncs: Vec::new(), next_id: 1 };
        assert(rows_view(r.rows@) =~= seq![]);
        assert(syncs_view(r.syncs@) =~= seq![]);
        r
    }

    pub fn rows(&self) -> (r: &Vec<CommandRow>)
        ensures
            rows_view(r@) == self.model().0,
    {
        &self.rows
    }

    pub fn sync_states(&self) -> (r: &Vec<SyncState>)
        ensures
            syncs_view(r@) == self.model().1,
    {
        &self.syncs
    }

    pub fn len(&self) -> (r: usize)
        ensures
            r == self.model().0.len(),
    {
        self.rows.len()
    }

    proof fn lemma_find(&self, c: Seq<char>)
        requires
            self.wf(),
        ensures
            find_row(self.model().0, c) == (if self.index@.contains_key(c) {
                Some(self.index@[c] as int)
            } else {
                None
            }),
    {
        let rows = self.model().0;
        if self.index@.contains_key(c) {
            let k = self.index@[c] as int;
            assert(rows[k].0 == c);
            let i = choose|i: int| 0 <= i < rows.len() && rows[i].0 == c;
            if i != k {
                if i < k {
                    assert(rows[i].0 != rows[k].0);
                } else {
                    assert(rows[k].0 != rows[i].0);
                }
            }
        } else {
            if exists|i: int| 0 <= i < rows.len() && rows[i].0 == c {
                let i = choose|i: int| 0 <= i < rows.len() && rows[i].0 == c;
                assert(self.rows@[i].command@ == c);
            }
        }
    }

    /// Index of the row of `command`.
    pub fn find(&self, command: &str) -> (r: Option<usize>)
        requires
            self.wf(),
        ensures
            match r {
                Some(i) => find_row(self.model().0, command@) == Some(i as int),
                None => find_row(self.model().0, command@) is None,
            },
    {
        proof { self.lemma_find(command@); }
        match self.index.get(command) {
            Some(i) => Some(*i),
            None => None,
        }
    }

    fn upsert(&mut self, c: &String, ts: Option<i64>, shell: &String)
        requires
            old(self).wf(),
            find_row(old(self).model().0, c@) is Some || old(self).model().2 < i64::MAX,
        ensures
            final(self).wf(),
            final(self).model() == upsert(old(self).model(), c@, ts, shell@),
    {
        proof { self.lemma_find(c@); }
        let ghost m = self.model();
        match self.index.get(c.as_str()) {
            Some(i) => {
                let i = *i;
                let f = self.rows[i].frequency;
                let nf = if f < u32::MAX { f + 1 } else { f };
                let row = CommandRow {
                    id: self.rows[i].id,
                    command: self.rows[i].command.clone(),
                    frequency: nf,
                    last_used: ts,
                    shell_source: self.rows[i].shell_source.clone(),
                };
                self.rows.set(i, row);
                assert(rows_view(self.rows@) =~= m.0.update(i as int, (c@, bump(m.0[i as int].1), ts, m.0[i as int].3, m.0[i as int].4)));
                assert(self.model().1 == m.1);
                proof {
                    assert forall|a: int, b: int| 0 <= a < b < self.rows@.len() implies rows_view(self.rows@)[a].0 != rows_view(self.rows@)[b].0 by {
                        assert(rows_view(self.rows@)[a].0 == m.0[a].0);
                        assert(rows_view(self.rows@)[b].0 == m.0[b].0);
                    }
                    assert forall|a: int| 0 <= a < self.rows@.len() implies self.index@.contains_key(#[trigger] self.rows@[a].command@)
                        && self.index@[self.rows@[a].command@] == a by {
                        assert(self.rows@[a].command@ == old(self).rows@[a].command@);
                    }
                    assert forall|k: Seq<char>| #[trigger] self.index@.contains_key(k) implies self.index@[k] < self.rows@.len()
                        && self.rows@[self.index@[k] as int].command@ == k by {
                        assert(self.rows@[self.index@[k] as int].command@ == old(self).rows@[self.index@[k] as int].command@);
                    }
                    assert forall|a: int| 0 <= a < self.rows@.len() implies (#[trigger] rows_view(self.rows@)[a]).1 >= 1
                        && rows_view(self.rows@)[a].4 < i64::MAX by {
                        assert(rows_view(self.rows@)[a].4 == m.0[a].4);
                    }
                    assert forall|a: int| 0 <= a < self.rows@.len() implies (#[trigger] self.rows@[a]).id < self.next_id by {
                        assert(self.rows@[a].id == old(self).rows@[a].id);
                    }
                }
            },
            None => {
                let n = self.rows.len();
                let row = CommandRow {
                    id: self.next_id,
                    command: c.clone(),
                    frequency: 1,
                    last_used: ts,
                    shell_source: shell.clone(),
                };
                self.rows.push(row);
                self.index.insert(c.clone(), n);
                self.next_id = self.next_id + 1;
                assert(rows_view(self.rows@) =~= m.0.push((c@, 1, ts, shell@, m.2)));
                proof {
                    assert forall|a: int, b: int| 0 <= a < b < self.rows@.len() implies rows_view(self.rows@)[a].0 != rows_view(self.rows@)[b].0 by {
                        if b == n {
                            assert(old(self).index@.contains_key(old(self).rows@[a].command@));
                        }
                    }
                    assert forall|a: int| 0 <= a < self.rows@.len() implies self.index@.contains_key(#[trigger] self.rows@[a].command@)
                        && self.index@[self.rows@[a].command@] == a by {
                        if a < n {
                            assert(old(self).index@.contains_key(old(self).rows@[a].command@));
                        }
                    }
                    assert forall|k: Seq<char>| #[trigger] self.index@.contains_key(k) implies self.index@[k] < self.rows@.len()
                        && self.rows@[self.index@[k] as int].command@ == k by {
                        if k != c@ {
                            assert(old(self).index@.contains_key(k));
                        }
                    }
                    assert forall|a: int| 0 <= a < self.rows@.len() implies (#[trigger] rows_view(self.rows@)[a]).1 >= 1
                        && rows_view(self.rows@)[a].4 < i64::MAX by {
                        if a < n {
                            assert(rows_view(self.rows@)[a] == m.0[a]);
                        }
                    }
                    assert forall|a: int| 0 <= a < self.rows@.len() implies (#[trigger] self.rows@[a]).id < self.next_id by {
                        if a < n {
                            assert(self.rows@[a].id == old(self).rows@[a].id);
                        }
                    }
                }
            },
        }
    }

    /// Upserts one history entry of `shell`.
    pub fn insert_or_update(&mut self, entry: &HistoryEntry, shell: &str) -> (r: Result<(), StoreError>)
        requires
            old(self).wf(),
        ensures
            final(self).wf(),
            r is Ok <==> (find_row(old(self).model().0, entry.command@) is Some || old(self).model().2 < i64::MAX),
            r is Ok ==> final(self).model() == upsert(old(self).model(), entry.command@, entry.timestamp, shell@),
            r is Err ==> final(self).model() == old(self).model(),
    {
        proof { self.lemma_find(entry.command@); }
        if !self.index.contains_key(entry.command.as_str()) && self.next_id == i64::MAX {
            return Err(StoreError::IdsExhausted);
        }
        let sh = String::from_str(shell);
        self.upsert(&entry.command, entry.timestamp, &sh);
        Ok(())
    }

    /// Records a use of `command` at `now`: one more use and last used now,
    /// or a new row from this program's own shell.
    pub fn record_usage(&mut self, command: &str, now: i64) -> (r: Result<(), StoreError>)
        requires
            old(self).wf(),
        ensures
            final(self).wf(),
            r is Ok <==> (find_row(old(self).model().0, command@) is Some || old(self).model().2 < i64::MAX),
            r is Ok ==> final(self).model() == usage_spec(old(self).model(), command@, now),
            r is Err ==> final(self).model() == old(self).model(),
    {
        proof { self.lemma_find(command@); }
        let c = String::from_str(command);
        if !self.index.contains_key(command) && self.next_id == i64::MAX {
            return Err(StoreError::IdsExhausted);
        }
        let shell = String::from_str("mux");
        proof { reveal_strlit("mux"); }
        assert(shell@ =~= usage_shell());
        proof { self.lemma_find(c@); }
        self.upsert(&c, Some(now), &shell);
        Ok(())
    }

    /// Index of `shell`'s cursor.
    fn find_cursor(&self, shell: &String) -> (r: Option<usize>)
        requires
            self.wf(),
        ensures
            match r {
                Some(i) => i < self.syncs@.len() && self.syncs@[i as int].shell_source@ == shell@,
                None => !(exists|i: int| 0 <= i < self.model().1.len() && self.model().1[i].0 == shell@),
            },
    {
        let mut i: usize = 0;
        while i < self.syncs.len()
            invariant
                i <= self.syncs@.len(),
                forall|k: int| 0 <= k < i ==> syncs_view(self.syncs@)[k].0 != shell@,
            decreases self.syncs.len() - i,
        {
            if self.syncs[i].shell_source == *shell {
                return Some(i);
            }
            i += 1;
        }
        None
    }

    /// `shell`'s cursor: the time of its last sync and the entries read then.
    pub fn cursor(&self, shell: &str) -> (r: (i64, usize))
        requires
            self.wf(),
        ensures
            (r.0, r.1 as nat) == cursor_of(self.model().1, shell@),
    {
        let sh = String::from_str(shell);
        match self.find_cursor(&sh) {
            Some(i) => {
                proof {
                    let sv = self.model().1;
                    let j = choose|j: int| 0 <= j < sv.len() && sv[j].0 == shell@;
                    assert(sv[i as int].0 == shell@);
                    if j != i as int {
                        if j < i { assert(sv[j].0 != sv[i as int].0); } else { assert(sv[i as int].0 != sv[j].0); }
                    }
                }
                (self.syncs[i].last_sync_timestamp, self.syncs[i].last_line_count)
            },
            None => (0, 0),
        }
    }

    fn set_cursor(&mut self, shell: &String, now: i64, count: usize)
        requires
            old(self).wf(),
        ensures
            final(self).wf(),
            final(self).model() == (old(self).model().0, set_cursor(old(self).model().1, shell@, now, count as nat), old(self).model().2),
    {
        let ghost sv = self.model().1;
        let st = SyncState { shell_source: shell.clone(), last_sync_timestamp: now, last_line_count: count };
        match self.find_cursor(shell) {
            Some(i) => {
                proof {
                    let j = choose|j: int| 0 <= j < sv.len() && sv[j].0 == shell@;
                    assert(sv[i as int].0 == shell@);
                    if j != i as int {
                        if j < i { assert(sv[j].0 != sv[i as int].0); } else { assert(sv[i as int].0 != sv[j].0); }
                    }
                }
                self.syncs.set(i, st);
                assert(syncs_view(self.syncs@) =~= sv.update(i as int, (shell@, now, count as nat)));
                assert forall|a: int, b: int| 0 <= a < b < self.syncs@.len() implies syncs_view(self.syncs@)[a].0 != syncs_view(self.syncs@)[b].0 by {
                    assert(syncs_view(self.syncs@)[a].0 == sv[a].0);
                    assert(syncs_view(self.syncs@)[b].0 == sv[b].0);
                }
            },
            None => {
                self.syncs.push(st);
                assert(syncs_view(self.syncs@) =~= sv.push((shell@, now, count as nat)));
                assert forall|a: int, b: int| 0 <= a < b < self.syncs@.len() implies syncs_view(self.syncs@)[a].0 != syncs_view(self.syncs@)[b].0 by {
                    if b == sv.len() {
                        assert(syncs_view(self.syncs@)[a].0 == sv[a].0);
                    }
                }
            },
        }
    }

    /// Syncs `shell`'s history: the entries that are new since its cursor are
    /// upserted, then the cursor moves to `now` and the number of entries
    /// read. All or nothing: where the ids would run out, nothing changes.
    /// Returns the number of new entries.
    pub fn sync(&mut self, shell: &str, history: &Vec<HistoryEntry>, now: i64) -> (r: Result<usize, StoreError>)
        requires
            old(self).wf(),
        ensures
            final(self).wf(),
            r is Ok <==> sync_fits(old(self).model(), shell@, entries(history@)),
            r matches Ok(n) ==> final(self).model() == sync_spec(old(self).model(), shell@, entries(history@), now)
                && n == new_entries(old(self).model(), shell@, entries(history@)).len(),
            r is Err ==> final(self).model() == old(self).model(),
    {
        let ghost m = self.model();
        let ghost h = entries(history@);
        let sh = String::from_str(shell);
        let (last_ts, last_count) = self.cursor(shell);
        let mut fresh: Vec<HistoryEntry> = Vec::new();
        let mut i: usize = 0;
        while i < history.len()
            invariant
                h == entries(history@),
                i <= history@.len(),
                entries(fresh@) == filter_new(h.take(i as int), last_ts, last_count as nat),
            decreases history.len() - i,
        {
            let e = &history[i];
            let ghost t = h.take(i as int + 1);
            assert(t.drop_last() =~= h.take(i as int));
            assert(t.last() == e@);
            let keep = match e.timestamp {
                Some(ts) => ts > last_ts,
                None => i >= last_count,
            };
            if keep {
                let ghost before = entries(fresh@);
                let c = HistoryEntry { command: e.command.clone(), timestamp: e.timestamp };
                fresh.push(c);
                assert(entries(fresh@) =~= before.push(e@));
            }
            i += 1;
        }
        assert(h.take(i as int) =~= h);
        let room = (i64::MAX - self.next_id) as u64;
        if room < fresh.len() as u64 {
            return Err(StoreError::IdsExhausted);
        }
        let ghost f = entries(fresh@);
        let mut k: usize = 0;
        while k < fresh.len()
            invariant
                f == entries(fresh@),
                k <= fresh@.len(),
                self.wf(),
                self.model() == upsert_all(m, f.take(k as int), sh@),
                self.model().2 + (f.len() - k) <= i64::MAX,
            decreases fresh.len() - k,
        {
            let ghost t = f.take(k as int + 1);
            assert(t.drop_last() =~= f.take(k as int));
            assert(t.last() == fresh@[k as int]@);
            let ghost before = self.model();
            self.upsert(&fresh[k].command, fresh[k].timestamp, &sh);
            assert(self.model().2 <= before.2 + 1);
            k += 1;
        }
        assert(f.take(k as int) =~= f);
        self.set_cursor(&sh, now, history.len());
        Ok(fresh.len())
    }

    /// A store holding the given rows and cursors, as read back from where
    /// the host keeps them; `None` if they break the store's rules.
    pub fn from_rows(rows: Vec<CommandRow>, syncs: Vec<SyncState>) -> (r: Option<CommandStore>)
        ensures
            r is Some <==> rows_valid(rows_view(rows@)) && unique_shells(syncs_view(syncs@)),
            r matches Some(s) ==> s.wf() && s.model() == (rows_view(rows@), syncs_view(syncs@), (max_id(rows_view(rows@)) + 1) as i64),
    {
        let ghost rv = rows_view(rows@);
        let mut index: StringHashMap<usize> = StringHashMap::new();
        let mut max: i64 = 0;
        let mut i: usize = 0;
        while i < rows.len()
            invariant
                rv == rows_view(rows@),
                i <= rows@.len(),
                rows_valid(rv.take(i as int)),
                max == max_id(rv.take(i as int)),
                0 <= max < i64::MAX,
                forall|a: int| 0 <= a < i ==> index@.contains_key(#[trigger] rows@[a].command@) && index@[rows@[a].command@] == a,
                forall|k: Seq<char>| #[trigger] index@.contains_key(k) ==> index@[k] < i && rows@[index@[k] as int].command@ == k,
                forall|a: int| 0 <= a < i ==> (#[trigger] rows@[a]).id <= max,
            decreases rows.len() - i,
        {
            let r = &rows[i];
            let ghost t = rv.take(i as int + 1);
            assert(t.drop_last() =~= rv.take(i as int));
            assert(t.last() == r@);
            if index.contains_key(r.command.as_str()) {
                proof {
                    let a = index@[r.command@] as int;
                    assert(rv[a].0 == rv[i as int].0);
                    assert(!unique_commands(rv));
                }
                return None;
            }
            if r.frequency < 1 || r.id == i64::MAX {
                assert(!(rv[i as int].1 >= 1 && rv[i as int].4 < i64::MAX));
                return None;
            }
            index.insert(r.command.clone(), i);
            if r.id > max {
                max = r.id;
            }
            i += 1;
            assert forall|a: int, b: int| 0 <= a < b < t.len() implies t[a].0 != t[b].0 by {
                if b == t.len() - 1 {
                    assert(t[a] == rv[a]);
                    assert(index@.contains_key(rows@[a].command@));
                } else {
                    assert(t[a] == rv.take(i - 1)[a]);
                    assert(t[b] == rv.take(i - 1)[b]);
                }
            }
            assert forall|a: int| 0 <= a < t.len() implies (#[trigger] t[a]).1 >= 1 && t[a].4 < i64::MAX by {
                if a < t.len() - 1 {
                    assert(t[a] == rv.take(i - 1)[a]);
                }
            }
        }
        assert(rv.take(i as int) =~= rv);
        let ghost sv = syncs_view(syncs@);
        let mut a: usize = 0;
        while a < syncs.len()
            invariant
                sv == syncs_view(syncs@),
                a <= syncs@.len(),
                forall|x: int, y: int| 0 <= x < y < syncs@.len() && x < a ==> sv[x].0 != sv[y].0,
            decreases syncs.len() - a,
        {
            let mut b: usize = a + 1;
            while b < syncs.len()
                invariant
                    sv == syncs_view(syncs@),
                    a < syncs@.len(),
                    a < b <= syncs@.len(),
                    forall|x: int, y: int| 0 <= x < y < syncs@.len() && x < a ==> sv[x].0 != sv[y].0,
                    forall|y: int| a < y < b ==> sv[a as int].0 != sv[y].0,
                decreases syncs.len() - b,
            {
                if syncs[a].shell_source == syncs[b].shell_source {
                    assert(sv[a as int].0 == sv[b as int].0);
                    assert(!unique_shells(sv));
                    return None;
                }
                b += 1;
            }
            a += 1;
        }
        let s = CommandStore { rows, index, syncs, next_id: max + 1 };
        Some(s)
    }
}

} // verus!

verus! {

// ---------------------------------------------------------------- laws

/// A well-formed store never holds two rows for one command, and every
/// operation on a store keeps it well-formed.
pub proof fn lemma_store_unique(s: &CommandStore)
    requires
        s.wf(),
    ensures
        unique_commands(s.model().0),
{
}

/// What the host writes back of a well-formed store reads back as the same
/// rows and cursors (`from_rows` accepts them).
pub proof fn lemma_reopen(s: &CommandStore)
    requires
        s.wf(),
    ensures
        rows_valid(s.model().0),
        unique_shells(s.model().1),
{
}

/// A use of a command adds one to its frequency (up to the largest `u32`)
/// and leaves every other row as it was; an unknown command gets a row
/// with frequency one.
pub proof fn lemma_usage_delta(m: StoreV, c: Seq<char>, now: i64)
    requires
        unique_commands(m.0),
    ensures
        match find_row(m.0, c) {
            Some(i) => usage_spec(m, c, now).0.len() == m.0.len()
                && usage_spec(m, c, now).0[i].0 == c
                && usage_spec(m, c, now).0[i].1 == bump(m.0[i].1)
                && forall|j: int| 0 <= j < m.0.len() && j != i ==> usage_spec(m, c, now).0[j] == m.0[j],
            None => usage_spec(m, c, now).0 == m.0.push((c, 1, Some(now), usage_shell(), m.2)),
        },
{
}

proof fn lemma_upsert_keeps(m: StoreV, c: Seq<char>, ts: Option<i64>, sh: Seq<char>)
    ensures
        upsert(m, c, ts, sh).0.len() >= m.0.len(),
        upsert(m, c, ts, sh).1 == m.1,
        forall|i: int|
            0 <= i < m.0.len() ==> (#[trigger] upsert(m, c, ts, sh).0[i]).0 == m.0[i].0
                && upsert(m, c, ts, sh).0[i].1 >= m.0[i].1,
        exists|j: int| 0 <= j < upsert(m, c, ts, sh).0.len() && upsert(m, c, ts, sh).0[j].0 == c,
{
    match find_row(m.0, c) {
        Some(k) => {
            assert(upsert(m, c, ts, sh).0[k].0 == c);
        },
        None => {
            assert(upsert(m, c, ts, sh).0[m.0.len() as int].0 == c);
        },
    }
}

proof fn lemma_upsert_all_keeps(m: StoreV, f: Seq<EntryV>, sh: Seq<char>)
    ensures
        upsert_all(m, f, sh).0.len() >= m.0.len(),
        upsert_all(m, f, sh).1 == m.1,
        forall|i: int|
            0 <= i < m.0.len() ==> (#[trigger] upsert_all(m, f, sh).0[i]).0 == m.0[i].0
                && upsert_all(m, f, sh).0[i].1 >= m.0[i].1,
        forall|k: int|
            0 <= k < f.len() ==> exists|j: int|
                0 <= j < upsert_all(m, f, sh).0.len() && upsert_all(m, f, sh).0[j].0 == (#[trigger] f[k]).0,
    decreases f.len(),
{
    if f.len() > 0 {
        let p = upsert_all(m, f.drop_last(), sh);
        lemma_upsert_all_keeps(m, f.drop_last(), sh);
        lemma_upsert_keeps(p, f.last().0, f.last().1, sh);
        let u = upsert_all(m, f, sh);
        assert forall|i: int| 0 <= i < m.0.len() implies (#[trigger] u.0[i]).0 == m.0[i].0 && u.0[i].1 >= m.0[i].1 by {
            assert(u.0[i] == upsert(p, f.last().0, f.last().1, sh).0[i]);
            assert(p.0[i].0 == m.0[i].0);
        }
        assert forall|k: int| 0 <= k < f.len() implies exists|j: int|
            0 <= j < u.0.len() && u.0[j].0 == (#[trigger] f[k]).0 by {
            if k < f.len() - 1 {
                assert(f.drop_last()[k] == f[k]);
                let j = choose|j: int| 0 <= j < p.0.len() && p.0[j].0 == f.drop_last()[k].0;
                assert(u.0[j].0 == p.0[j].0);
            }
        }
    }
}

/// Frequencies only grow: after a sync every earlier row keeps its command
/// and has at least its former frequency.
pub proof fn lemma_sync_monotone(m: StoreV, shell: Seq<char>, h: Seq<EntryV>, now: i64)
    ensures
        sync_spec(m, shell, h, now).0.len() >= m.0.len(),
        forall|i: int|
            0 <= i < m.0.len() ==> (#[trigger] sync_spec(m, shell, h, now).0[i]).0 == m.0[i].0
                && sync_spec(m, shell, h, now).0[i].1 >= m.0[i].1,
{
    lemma_upsert_all_keeps(m, new_entries(m, shell, h), shell);
}

/// Frequencies only grow: after a recorded use every earlier row keeps its
/// command and has at least its former frequency.
pub proof fn lemma_usage_monotone(m: StoreV, c: Seq<char>, now: i64)
    ensures
        usage_spec(m, c, now).0.len() >= m.0.len(),
        forall|i: int|
            0 <= i < m.0.len() ==> (#[trigger] usage_spec(m, c, now).0[i]).0 == m.0[i].0
                && usage_spec(m, c, now).0[i].1 >= m.0[i].1,
{
    lemma_upsert_keeps(m, c, Some(now), usage_shell());
}

/// Some row holds command `c`.
pub open spec fn has_command(rows: Seq<RowV>, c: Seq<char>) -> bool {
    exists|j: int| 0 <= j < rows.len() && rows[j].0 == c
}

/// Entry `e` stands at a position of `h` where it is new.
pub open spec fn new_at(h: Seq<EntryV>, e: EntryV, ts: i64, cnt: nat) -> bool {
    exists|i: int| 0 <= i < h.len() && h[i] == e && is_new(h[i], i, ts, cnt)
}

proof fn lemma_filter_member(h: Seq<EntryV>, ts: i64, cnt: nat)
    ensures
        forall|k: int|
            0 <= k < filter_new(h, ts, cnt).len() ==> new_at(h, #[trigger] filter_new(h, ts, cnt)[k], ts, cnt),
        forall|i: int|
            0 <= i < h.len() && is_new(#[trigger] h[i], i, ts, cnt) ==> filter_new(h, ts, cnt).contains(h[i]),
    decreases h.len(),
{
    if h.len() > 0 {
        let g = h.drop_last();
        lemma_filter_member(g, ts, cnt);
        let f = filter_new(h, ts, cnt);
        let fg = filter_new(g, ts, cnt);
        assert forall|k: int| 0 <= k < f.len() implies new_at(h, #[trigger] f[k], ts, cnt) by {
            if k < fg.len() {
                assert(f[k] == fg[k]);
                assert(new_at(g, fg[k], ts, cnt));
                let i = choose|i: int| 0 <= i < g.len() && g[i] == fg[k] && is_new(g[i], i, ts, cnt);
                assert(h[i] == g[i]);
            } else {
                assert(f[k] == h.last());
                assert(h[h.len() - 1] == h.last());
                assert(is_new(h[h.len() - 1], h.len() - 1, ts, cnt));
            }
        }
        assert forall|i: int| 0 <= i < h.len() && is_new(#[trigger] h[i], i, ts, cnt) implies f.contains(h[i]) by {
            if i < h.len() - 1 {
                assert(g[i] == h[i]);
                assert(fg.contains(g[i]));
                let k = choose|k: int| 0 <= k < fg.len() && fg[k] == g[i];
                assert(f[k] == fg[k]);
            } else {
                assert(f[fg.len() as int] == h.last());
            }
        }
    }
}

proof fn lemma_upsert_all_existing(m: StoreV, f: Seq<EntryV>, sh: Seq<char>)
    requires
        forall|k: int| 0 <= k < f.len() ==> has_command(m.0, (#[trigger] f[k]).0),
    ensures
        upsert_all(m, f, sh).0.len() == m.0.len(),
        forall|i: int| 0 <= i < m.0.len() ==> (#[trigger] upsert_all(m, f, sh).0[i]).0 == m.0[i].0,
    decreases f.len(),
{
    if f.len() > 0 {
        let g = f.drop_last();
        assert forall|k: int| 0 <= k < g.len() implies has_command(m.0, (#[trigger] g[k]).0) by {
            assert(g[k] == f[k]);
        }
        lemma_upsert_all_existing(m, g, sh);
        let p = upsert_all(m, g, sh);
        let c = f.last().0;
        assert(f[f.len() - 1] == f.last());
        assert(has_command(m.0, f[f.len() - 1].0));
        let j = choose|j: int| 0 <= j < m.0.len() && m.0[j].0 == f[f.len() - 1].0;
        assert(p.0[j].0 == c);
        assert(exists|i: int| 0 <= i < p.0.len() && p.0[i].0 == c);
    }
}

proof fn lemma_cursor_after_set(s: Seq<SyncV>, sh: Seq<char>, now: i64, cnt: nat)
    requires
        unique_shells(s),
    ensures
        cursor_of(set_cursor(s, sh, now, cnt), sh) == (now, cnt),
{
    let t = set_cursor(s, sh, now, cnt);
    if exists|i: int| 0 <= i < s.len() && s[i].0 == sh {
        let i = choose|i: int| 0 <= i < s.len() && s[i].0 == sh;
        assert(t[i].0 == sh);
        let j = choose|j: int| 0 <= j < t.len() && t[j].0 == sh;
        if j != i {
            assert(t[j] == s[j]);
            if j < i { assert(s[j].0 != s[i].0); } else { assert(s[i].0 != s[j].0); }
        }
    } else {
        assert(t[s.len() as int].0 == sh);
        let j = choose|j: int| 0 <= j < t.len() && t[j].0 == sh;
        if j < s.len() {
            assert(t[j] == s[j]);
        }
    }
}

proof fn lemma_second_filter(m: StoreV, shell: Seq<char>, h: Seq<EntryV>, now1: i64)
    requires
        unique_shells(m.1),
        cursor_of(m.1, shell).0 <= now1,
    ensures
        forall|k: int|
            0 <= k < filter_new(h, now1, h.len()).len() ==> new_entries(m, shell, h).contains(
                #[trigger] filter_new(h, now1, h.len())[k],
            ),
{
    let f1 = new_entries(m, shell, h);
    let f2 = filter_new(h, now1, h.len());
    let c0 = cursor_of(m.1, shell);
    lemma_filter_member(h, now1, h.len());
    lemma_filter_member(h, c0.0, c0.1);
    assert forall|k: int| 0 <= k < f2.len() implies f1.contains(#[trigger] f2[k]) by {
        assert(new_at(h, f2[k], now1, h.len()));
        let i = choose|i: int| 0 <= i < h.len() && h[i] == f2[k] && is_new(h[i], i, now1, h.len());
        assert(is_new(h[i], i, c0.0, c0.1));
    }
}

/// Syncing the same history twice adds no row the second time, provided
/// the clock has not gone back behind the shell's cursor.
pub proof fn lemma_sync_twice(m: StoreV, shell: Seq<char>, h: Seq<EntryV>, now1: i64, now2: i64)
    requires
        unique_shells(m.1),
        cursor_of(m.1, shell).0 <= now1,
    ensures
        ({
            let m1 = sync_spec(m, shell, h, now1);
            let m2 = sync_spec(m1, shell, h, now2);
            &&& m2.0.len() == m1.0.len()
            &&& forall|i: int| 0 <= i < m1.0.len() ==> (#[trigger] m2.0[i]).0 == m1.0[i].0
        }),
{
    let f1 = new_entries(m, shell, h);
    let u1 = upsert_all(m, f1, shell);
    lemma_upsert_all_keeps(m, f1, shell);
    let m1 = sync_spec(m, shell, h, now1);
    lemma_cursor_after_set(m.1, shell, now1, h.len());
    assert(cursor_of(m1.1, shell) == (now1, h.len()));
    let f2 = new_entries(m1, shell, h);
    assert(f2 == filter_new(h, now1, h.len()));
    lemma_second_filter(m, shell, h, now1);
    assert forall|k: int| 0 <= k < f2.len() implies has_command(m1.0, (#[trigger] f2[k]).0) by {
        assert(f1.contains(f2[k]));
        let k1 = choose|k1: int| 0 <= k1 < f1.len() && f1[k1] == f2[k];
        let j = choose|j: int| 0 <= j < u1.0.len() && u1.0[j].0 == f1[k1].0;
        assert(m1.0[j].0 == f2[k].0);
    }
    lemma_upsert_all_existing(m1, f2, shell);
}

/// Rebuilding from scratch with unchanged history files gives the same rows,
/// whenever it runs.
pub proof fn lemma_rebuild_same(shell: Seq<char>, h: Seq<EntryV>, now1: i64, now2: i64)
    ensures
        sync_spec((seq![], seq![], 1), shell, h, now1).0 == sync_spec((seq![], seq![], 1), shell, h, now2).0,
{
}

} // verus!

verus! {

proof fn lemma_filter_none_new(h: Seq<EntryV>, t: i64)
    requires
        forall|i: int| 0 <= i < h.len() ==> ((#[trigger] h[i]).1 is None || h[i].1->0 <= t),
    ensures
        filter_new(h, t, h.len()).len() == 0,
    decreases h.len(),
{
    if h.len() > 0 {
        let g = h.drop_last();
        assert forall|i: int| 0 <= i < g.len() implies ((#[trigger] g[i]).1 is None || g[i].1->0 <= t) by {
            assert(g[i] == h[i]);
        }
        lemma_filter_none_new(g, t);
        lemma_filter_prefix_count(g, t, h.len());
        assert(h[h.len() - 1] == h.last());
    }
}

proof fn lemma_filter_prefix_count(g: Seq<EntryV>, t: i64, cnt: nat)
    requires
        cnt >= g.len(),
        forall|i: int| 0 <= i < g.len() ==> ((#[trigger] g[i]).1 is None || g[i].1->0 <= t),
    ensures
        filter_new(g, t, cnt).len() == 0,
    decreases g.len(),
{
    if g.len() > 0 {
        let d = g.drop_last();
        assert forall|i: int| 0 <= i < d.len() implies ((#[trigger] d[i]).1 is None || d[i].1->0 <= t) by {
            assert(d[i] == g[i]);
        }
        lemma_filter_prefix_count(d, t, cnt);
        assert(g[g.len() - 1] == g.last());
    }
}

/// Syncing an unchanged history again, when every timestamp in it is no
/// later than the first sync's clock (entries without one count by line), finds nothing new and leaves every
/// row as it was; only the shell's cursor moves.
pub proof fn lemma_sync_again_unchanged(m: StoreV, shell: Seq<char>, h: Seq<EntryV>, now1: i64, now2: i64)
    requires
        unique_shells(m.1),
        forall|i: int| 0 <= i < h.len() ==> ((#[trigger] h[i]).1 is None || h[i].1->0 <= now1),
    ensures
        new_entries(sync_spec(m, shell, h, now1), shell, h).len() == 0,
        sync_spec(sync_spec(m, shell, h, now1), shell, h, now2).0 == sync_spec(m, shell, h, now1).0,
{
    lemma_upsert_all_keeps(m, new_entries(m, shell, h), shell);
    lemma_cursor_after_set(m.1, shell, now1, h.len());
    lemma_filter_none_new(h, now1);
    let m1 = sync_spec(m, shell, h, now1);
    assert(new_entries(m1, shell, h) =~= seq![]);
}

proof fn lemma_upsert_commands(m: StoreV, c: Seq<char>, ts: Option<i64>, sh: Seq<char>)
    requires
        unique_commands(m.0),
    ensures
        unique_commands(upsert(m, c, ts, sh).0),
        forall|x: Seq<char>| #![trigger has_command(upsert(m, c, ts, sh).0, x)] has_command(upsert(m, c, ts, sh).0, x) <==> (has_command(m.0, x) || x == c),
{
    let u = upsert(m, c, ts, sh).0;
    match find_row(m.0, c) {
        Some(k) => {
            assert forall|i: int, j: int| 0 <= i < j < u.len() implies u[i].0 != u[j].0 by {
                assert(u[i].0 == m.0[i].0 && u[j].0 == m.0[j].0);
            }
            assert forall|x: Seq<char>| has_command(u, x) <==> (has_command(m.0, x) || x == c) by {
                if has_command(u, x) {
                    let j = choose|j: int| 0 <= j < u.len() && u[j].0 == x;
                    assert(m.0[j].0 == x);
                }
                if has_command(m.0, x) {
                    let j = choose|j: int| 0 <= j < m.0.len() && m.0[j].0 == x;
                    assert(u[j].0 == x);
                }
                if x == c {
                    assert(u[k].0 == c);
                }
            }
        },
        None => {
            assert forall|i: int, j: int| 0 <= i < j < u.len() implies u[i].0 != u[j].0 by {
                if j == m.0.len() {
                    assert(u[i] == m.0[i]);
                } else {
                    assert(u[i] == m.0[i] && u[j] == m.0[j]);
                }
            }
            assert forall|x: Seq<char>| has_command(u, x) <==> (has_command(m.0, x) || x == c) by {
                if has_command(u, x) {
                    let j = choose|j: int| 0 <= j < u.len() && u[j].0 == x;
                    if j < m.0.len() {
                        assert(m.0[j] == u[j]);
                    }
                }
                if has_command(m.0, x) {
                    let j = choose|j: int| 0 <= j < m.0.len() && m.0[j].0 == x;
                    assert(u[j] == m.0[j]);
                }
                if x == c {
                    assert(u[m.0.len() as int].0 == c);
                }
            }
        },
    }
}

/// Some entry of `f` carries command `x`.
pub open spec fn in_entries(f: Seq<EntryV>, x: Seq<char>) -> bool {
    exists|k: int| 0 <= k < f.len() && f[k].0 == x
}

proof fn lemma_upsert_all_commands(m: StoreV, f: Seq<EntryV>, sh: Seq<char>)
    requires
        unique_commands(m.0),
    ensures
        unique_commands(upsert_all(m, f, sh).0),
        forall|x: Seq<char>| #![trigger has_command(upsert_all(m, f, sh).0, x)] has_command(upsert_all(m, f, sh).0, x) <==> (has_command(m.0, x) || in_entries(f, x)),
    decreases f.len(),
{
    if f.len() > 0 {
        let g = f.drop_last();
        lemma_upsert_all_commands(m, g, sh);
        let p = upsert_all(m, g, sh);
        lemma_upsert_commands(p, f.last().0, f.last().1, sh);
        assert(upsert_all(m, f, sh) == upsert(p, f.last().0, f.last().1, sh));
        assert forall|x: Seq<char>| has_command(upsert_all(m, f, sh).0, x) <==> (has_command(m.0, x) || in_entries(f, x)) by {
            assert(has_command(upsert(p, f.last().0, f.last().1, sh).0, x) <==> (has_command(p.0, x) || x == f.last().0));
            assert(has_command(p.0, x) <==> (has_command(m.0, x) || in_entries(g, x)));
            if x == f.last().0 {
                assert(f[f.len() - 1].0 == x);
            }
            if in_entries(g, x) {
                let k = choose|k: int| 0 <= k < g.len() && g[k].0 == x;
                assert(f[k] == g[k]);
            }
            if in_entries(f, x) {
                let k = choose|k: int| 0 <= k < f.len() && f[k].0 == x;
                if k < g.len() {
                    assert(g[k] == f[k]);
                } else {
                    assert(f[k] == f.last());
                }
            }
        }
    }
}


/// After a sync, no two rows share a command, and the commands are the
/// earlier ones together with those of the new entries.
pub proof fn lemma_sync_commands(m: StoreV, shell: Seq<char>, h: Seq<EntryV>, now: i64)
    requires
        unique_commands(m.0),
    ensures
        unique_commands(sync_spec(m, shell, h, now).0),
        forall|x: Seq<char>|
            #![trigger has_command(sync_spec(m, shell, h, now).0, x)]
            has_command(sync_spec(m, shell, h, now).0, x) <==> (has_command(m.0, x) || in_entries(
                new_entries(m, shell, h),
                x,
            )),
{
    lemma_upsert_all_commands(m, new_entries(m, shell, h), shell);
    assert(sync_spec(m, shell, h, now).0 == upsert_all(m, new_entries(m, shell, h), shell).0);
}

} // verus!

verus! {

/// Frequency of the row of `c`, 0 if there is none.
pub open spec fn freq_of(rows: Seq<RowV>, c: Seq<char>) -> nat {
    match find_row(rows, c) {
        Some(i) => rows[i].1,
        None => 0,
    }
}

/// Number of entries of `f` that carry command `c`.
pub open spec fn count_command(f: Seq<EntryV>, c: Seq<char>) -> nat
    decreases f.len(),
{
    if f.len() == 0 {
        0
    } else {
        count_command(f.drop_last(), c) + if f.last().0 == c {
            1nat
        } else {
            0nat
        }
    }
}

pub open spec fn cap32(x: nat) -> nat {
    if x > u32::MAX {
        u32::MAX as nat
    } else {
        x
    }
}

pub open spec fn freqs_fit(rows: Seq<RowV>) -> bool {
    forall|i: int| 0 <= i < rows.len() ==> (#[trigger] rows[i]).1 <= u32::MAX
}

proof fn lemma_find_row_at(rows: Seq<RowV>, x: Seq<char>, i: int)
    requires
        unique_commands(rows),
        0 <= i < rows.len(),
        rows[i].0 == x,
    ensures
        find_row(rows, x) == Some(i),
{
    let j = choose|j: int| 0 <= j < rows.len() && rows[j].0 == x;
    if j != i {
        if j < i { assert(rows[j].0 != rows[i].0); } else { assert(rows[i].0 != rows[j].0); }
    }
}

proof fn lemma_upsert_freq(m: StoreV, c: Seq<char>, ts: Option<i64>, sh: Seq<char>)
    requires
        unique_commands(m.0),
        freqs_fit(m.0),
    ensures
        freqs_fit(upsert(m, c, ts, sh).0),
        forall|x: Seq<char>|
            #![trigger freq_of(upsert(m, c, ts, sh).0, x)]
            freq_of(upsert(m, c, ts, sh).0, x) == if x == c {
                cap32(freq_of(m.0, x) + 1)
            } else {
                freq_of(m.0, x)
            },
{
    lemma_upsert_commands(m, c, ts, sh);
    let u = upsert(m, c, ts, sh).0;
    assert forall|i: int| 0 <= i < u.len() implies (#[trigger] u[i]).1 <= u32::MAX by {
        if i < m.0.len() {
            assert(m.0[i].1 <= u32::MAX);
        }
    }
    assert forall|x: Seq<char>| #![trigger freq_of(u, x)] freq_of(u, x) == if x == c {
        cap32(freq_of(m.0, x) + 1)
    } else {
        freq_of(m.0, x)
    } by {
        match find_row(m.0, c) {
            Some(k) => {
                if x == c {
                    lemma_find_row_at(u, x, k);
                } else if has_command(m.0, x) {
                    let i = choose|i: int| 0 <= i < m.0.len() && m.0[i].0 == x;
                    lemma_find_row_at(m.0, x, i);
                    lemma_find_row_at(u, x, i);
                } else {
                    assert(!has_command(u, x));
                }
            },
            None => {
                if x == c {
                    lemma_find_row_at(u, x, m.0.len() as int);
                } else if has_command(m.0, x) {
                    let i = choose|i: int| 0 <= i < m.0.len() && m.0[i].0 == x;
                    lemma_find_row_at(m.0, x, i);
                    assert(u[i] == m.0[i]);
                    lemma_find_row_at(u, x, i);
                } else {
                    assert(!has_command(u, x));
                }
            },
        }
    }
}

proof fn lemma_upsert_all_freq(m: StoreV, f: Seq<EntryV>, sh: Seq<char>)
    requires
        unique_commands(m.0),
        freqs_fit(m.0),
    ensures
        unique_commands(upsert_all(m, f, sh).0),
        freqs_fit(upsert_all(m, f, sh).0),
        forall|x: Seq<char>|
            #![trigger freq_of(upsert_all(m, f, sh).0, x)]
            freq_of(upsert_all(m, f, sh).0, x) == cap32(freq_of(m.0, x) + count_command(f, x)),
    decreases f.len(),
{
    lemma_upsert_all_commands(m, f, sh);
    if f.len() > 0 {
        let g = f.drop_last();
        lemma_upsert_all_freq(m, g, sh);
        let p = upsert_all(m, g, sh);
        lemma_upsert_freq(p, f.last().0, f.last().1, sh);
        assert(upsert_all(m, f, sh) == upsert(p, f.last().0, f.last().1, sh));
        assert forall|x: Seq<char>| #![trigger freq_of(upsert_all(m, f, sh).0, x)]
            freq_of(upsert_all(m, f, sh).0, x) == cap32(freq_of(m.0, x) + count_command(f, x)) by {
            assert(freq_of(upsert(p, f.last().0, f.last().1, sh).0, x) == if x == f.last().0 {
                cap32(freq_of(p.0, x) + 1)
            } else {
                freq_of(p.0, x)
            });
            assert(freq_of(p.0, x) == cap32(freq_of(m.0, x) + count_command(g, x)));
        }
    }
}

/// After a sync each command's frequency is its former one (0 for a new
/// command) plus the number of new entries that carry it, up to the
/// largest `u32`.
pub proof fn lemma_sync_frequencies(m: StoreV, shell: Seq<char>, h: Seq<EntryV>, now: i64)
    requires
        unique_commands(m.0),
        freqs_fit(m.0),
    ensures
        forall|x: Seq<char>|
            #![trigger freq_of(sync_spec(m, shell, h, now).0, x)]
            freq_of(sync_spec(m, shell, h, now).0, x) == cap32(
                freq_of(m.0, x) + count_command(new_entries(m, shell, h), x),
            ),
{
    lemma_upsert_all_freq(m, new_entries(m, shell, h), shell);
    assert(sync_spec(m, shell, h, now).0 == upsert_all(m, new_entries(m, shell, h), shell).0);
}

} // verus!

verus! {

/// With room below the largest `u32`, a sync adds to each command's
/// frequency exactly the number of new entries that carry it (a new command
/// starts from 0).
pub proof fn lemma_sync_frequencies_exact(m: StoreV, shell: Seq<char>, h: Seq<EntryV>, now: i64, x: Seq<char>)
    requires
        unique_commands(m.0),
        freqs_fit(m.0),
        freq_of(m.0, x) + count_command(new_entries(m, shell, h), x) <= u32::MAX,
    ensures
        freq_of(sync_spec(m, shell, h, now).0, x) == freq_of(m.0, x) + count_command(new_entries(m, shell, h), x),
{
    lemma_sync_frequencies(m, shell, h, now);
}

/// `k` uses of `c`, at the given times, one after the other.
pub open spec fn uses(m: StoreV, c: Seq<char>, nows: Seq<i64>) -> StoreV
    decreases nows.len(),
{
    if nows.len() == 0 {
        m
    } else {
        usage_spec(uses(m, c, nows.drop_last()), c, nows.last())
    }
}

/// `k` uses of a command add `k` to its frequency (up to the largest `u32`),
/// leave every other command's frequency as it was and keep commands unique;
/// with room below the largest `u32` the sum is exact.
pub proof fn lemma_uses(m: StoreV, c: Seq<char>, nows: Seq<i64>)
    requires
        unique_commands(m.0),
        freqs_fit(m.0),
    ensures
        unique_commands(uses(m, c, nows).0),
        freqs_fit(uses(m, c, nows).0),
        freq_of(uses(m, c, nows).0, c) == cap32(freq_of(m.0, c) + nows.len()),
        freq_of(m.0, c) + nows.len() <= u32::MAX ==> freq_of(uses(m, c, nows).0, c) == freq_of(m.0, c) + nows.len(),
        forall|x: Seq<char>| x != c ==> #[trigger] freq_of(uses(m, c, nows).0, x) == freq_of(m.0, x),
    decreases nows.len(),
{
    if nows.len() > 0 {
        let p = uses(m, c, nows.drop_last());
        lemma_uses(m, c, nows.drop_last());
        lemma_upsert_commands(p, c, Some(nows.last()), usage_shell());
        lemma_upsert_freq(p, c, Some(nows.last()), usage_shell());
        assert(uses(m, c, nows) == upsert(p, c, Some(nows.last()), usage_shell()));
        assert forall|x: Seq<char>| x != c implies #[trigger] freq_of(uses(m, c, nows).0, x) == freq_of(m.0, x) by {
            assert(freq_of(upsert(p, c, Some(nows.last()), usage_shell()).0, x) == freq_of(p.0, x));
        }
        assert(freq_of(upsert(p, c, Some(nows.last()), usage_shell()).0, c) == cap32(freq_of(p.0, c) + 1));
    }
}

/// With room below the largest `u32`, a use adds exactly one to the
/// command's frequency, marks it used now, and leaves every other
/// command's frequency as it was.
pub proof fn lemma_usage_exact(m: StoreV, c: Seq<char>, now: i64)
    requires
        unique_commands(m.0),
        freqs_fit(m.0),
        freq_of(m.0, c) < u32::MAX,
    ensures
        freq_of(usage_spec(m, c, now).0, c) == freq_of(m.0, c) + 1,
        find_row(usage_spec(m, c, now).0, c) matches Some(i) && usage_spec(m, c, now).0[i].2 == Some(now),
        forall|x: Seq<char>| x != c ==> #[trigger] freq_of(usage_spec(m, c, now).0, x) == freq_of(m.0, x),
{
    lemma_upsert_freq(m, c, Some(now), usage_shell());
    lemma_upsert_commands(m, c, Some(now), usage_shell());
    let u = usage_spec(m, c, now).0;
    match find_row(m.0, c) {
        Some(k) => {
            lemma_find_row_at(u, c, k);
        },
        None => {
            lemma_find_row_at(u, c, m.0.len() as int);
        },
    }
}

} // verus!

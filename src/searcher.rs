//! The in-memory command index: the store's rows by descending frequency,
//! and their ranked fuzzy search.
use vstd::prelude::*;
use nucleo_matcher::{Config, Matcher, Utf32String};
use crate::history::{entries, HistoryEntry, Shell};
use crate::rank::{scored_view, top, top_scored, ScoredV};
use crate::store::{
    find_row, new_entries, rows_view, sync_fits, sync_spec, upsert, usage_spec, CommandStore,
    RowV, StoreError, StoreV,
};

verus! {

/// A command of the index with its usage.
#[derive(Debug, Clone)]
pub struct IndexedCommand {
    pub id: i64,
    pub command: String,
    pub frequency: u32,
    pub last_used: Option<i64>,
}

/// A search hit and its rank score.
#[derive(Debug, Clone)]
pub struct SearchResult {
    pub command: String,
    pub score: u64,
}

#[verifier::external_type_specification]
#[verifier::external_body]
pub struct ExMatcher(Matcher);

/// The fuzzy score that nucleo's matcher, in its default configuration,
/// gives `needle` in `haystack`; `None` where it does not match.
pub uninterp spec fn fuzzy_score_of(haystack: Seq<char>, needle: Seq<char>) -> Option<u16>;

/// Relies on `nucleo_matcher::Matcher::new`: a matcher with the default
/// configuration, the only kind this library makes.
#[verifier::external_body]
fn default_matcher() -> Matcher {
    Matcher::new(Config::DEFAULT)
}

/// Longest query that is matched fuzzily. The matcher sums its score in a
/// `u16`: at most 36 for the first matched character, 26 for each later one
/// and 8 for a prefix, so this many characters cannot overflow it.
pub const MAX_QUERY_CHARS: usize = 2048;

/// Relies on `nucleo_matcher::Matcher::fuzzy_match`: the score of the best
/// fuzzy match, which depends on the two texts alone (the matcher's own
/// state is scratch space). It asserts that the haystack has at most
/// `u32::MAX` characters, and its `u16` score overflows for long needles.
#[verifier::external_body]
fn fuzzy_match(matcher: &mut Matcher, haystack: &str, needle: &str) -> (r: Option<u16>)
    requires
        haystack@.len() <= u32::MAX,
        needle@.len() <= MAX_QUERY_CHARS,
    ensures
        r == fuzzy_score_of(haystack@, needle@),
{
    let h = Utf32String::from(haystack);
    let n = Utf32String::from(needle);
    matcher.fuzzy_match(h.slice(..), n.slice(..))
}

pub type CommandV = (i64, Seq<char>, nat, Option<i64>);

impl View for IndexedCommand {
    type V = CommandV;

    open spec fn view(&self) -> CommandV {
        (self.id, self.command@, self.frequency as nat, self.last_used)
    }
}

pub open spec fn commands_view(v: Seq<IndexedCommand>) -> Seq<CommandV> {
    v.map_values(|c: IndexedCommand| c@)
}

pub open spec fn row_command(r: RowV) -> CommandV {
    (r.4, r.0, r.1, r.2)
}

/// The rows in the order `order` gives.
pub open spec fn ordered(rows: Seq<RowV>, order: Seq<usize>) -> Seq<CommandV> {
    order.map_values(|i: usize| row_command(rows[i as int]))
}

/// `order` lists every row index once.
pub open spec fn is_permutation(order: Seq<usize>, n: nat) -> bool {
    &&& order.len() == n
    &&& forall|i: int| 0 <= i < order.len() ==> (#[trigger] order[i]) < n
    &&& forall|i: int, j: int| 0 <= i < j < order.len() ==> order[i] != order[j]
}

/// Frequencies do not increase along the order.
pub open spec fn by_frequency(rows: Seq<RowV>, order: Seq<usize>) -> bool {
    forall|i: int, j: int|
        0 <= i < j < order.len() ==> rows[order[i] as int].1 >= rows[order[j] as int].1
}

/// The fuzzy score of a command for a query; a command too long for the
/// matcher, or a query longer than `MAX_QUERY_CHARS`, never matches.
pub open spec fn fuzzy_of(cmd: Seq<char>, query: Seq<char>) -> Option<u16> {
    if cmd.len() <= u32::MAX && query.len() <= MAX_QUERY_CHARS {
        fuzzy_score_of(cmd, query)
    } else {
        None
    }
}

/// The matching commands with their rank: fuzzy score plus ten times the frequency.
pub open spec fn fuzzy_hits(cs: Seq<CommandV>, query: Seq<char>) -> Seq<ScoredV>
    decreases cs.len(),
{
    if cs.len() == 0 {
        seq![]
    } else {
        let h = fuzzy_hits(cs.drop_last(), query);
        match fuzzy_of(cs.last().1, query) {
            Some(s) => h.push((cs.last().1, s + 10 * cs.last().2)),
            None => h,
        }
    }
}

/// What a search returns: with no query the first commands by frequency,
/// scored by frequency; else the best fuzzy hits.
pub open spec fn search_spec(cs: Seq<CommandV>, query: Seq<char>, limit: nat) -> Seq<ScoredV> {
    if query.len() == 0 {
        cs.take(crate::rank::min_nat(limit, cs.len()) as int).map_values(|c: CommandV| (c.1, c.2 as int))
    } else {
        top(fuzzy_hits(cs, query), limit)
    }
}

pub open spec fn results_view(v: Seq<SearchResult>) -> Seq<ScoredV> {
    v.map_values(|r: SearchResult| (r.command@, r.score as int))
}

/// Keys do not increase along the order: frequency descending, then last
/// use descending.
pub open spec fn by_load_key(rows: Seq<RowV>, order: Seq<usize>) -> bool {
    forall|i: int, j: int|
        0 <= i < j < order.len() ==> load_key(rows[order[i] as int]) >= load_key(rows[order[j] as int])
}

/// Key of the load order: frequency first, then last use, none lowest.
pub open spec fn load_key(r: RowV) -> int {
    r.1 * 0x2_0000_0000_0000_0000 + match r.2 {
        Some(t) => t + 0x8000_0000_0000_0001,
        None => 0,
    }
}

/// The history searcher: the command store, its rows by descending
/// frequency, and a fuzzy matcher.
pub struct HistorySearcher {
    store: CommandStore,
    order: Vec<usize>,
    matcher: Matcher,
}

impl HistorySearcher {
    pub closed spec fn wf(&self) -> bool {
        &&& self.store.wf()
        &&& is_permutation(self.order@, self.store.model().0.len())
        &&& by_frequency(self.store.model().0, self.order@)
    }

    pub closed spec fn store_model(&self) -> StoreV {
        self.store.model()
    }

    /// The row indices in index order.
    pub closed spec fn index_order(&self) -> Seq<usize> {
        self.order@
    }

    /// The commands in index order.
    pub open spec fn entries(&self) -> Seq<CommandV> {
        ordered(self.store_model().0, self.index_order())
    }

    /// The row indices by descending load key.
    fn load_order(store: &CommandStore) -> (r: Vec<usize>)
        requires
            store.wf(),
        ensures
            is_permutation(r@, store.model().0.len()),
            by_load_key(store.model().0, r@),
            by_frequency(store.model().0, r@),
    {
        let rows = store.rows();
        let ghost rv = rows_view(rows@);
        let mut keys: Vec<(String, u128)> = Vec::new();
        let mut order: Vec<usize> = Vec::new();
        let mut i: usize = 0;
        while i < rows.len()
            invariant
                rv == rows_view(rows@),
                rv == store.model().0,
                i <= rows@.len(),
                order@.len() == i,
                is_permutation(order@, i as nat),
                by_load_key(rv, order@),
                forall|k: int| 0 <= k < order@.len() ==> (#[trigger] order@[k]) < i,
            decreases rows.len() - i,
        {
            // insert row i after every row with a key at least its own
            let ki = Self::key_of(&rows[i]);
            assert(rv[i as int] == rows@[i as int]@);
            let mut p: usize = 0;
            while p < order.len() && Self::key_of(&rows[order[p]]) >= ki
                invariant
                    rv == rows_view(rows@),
                    i < rows@.len(),
                    p <= order@.len(),
                    forall|k: int| 0 <= k < order@.len() ==> (#[trigger] order@[k]) < i,
                    ki == load_key(rv[i as int]),
                    forall|k: int| 0 <= k < p ==> load_key(rv[order@[k] as int]) >= ki,
                decreases order.len() - p,
            {
                assert(rv[order@[p as int] as int] == rows@[order@[p as int] as int]@);
                p += 1;
            }
            proof {
                if p < order.len() {
                    assert(rv[order@[p as int] as int] == rows@[order@[p as int] as int]@);
                    assert(load_key(rv[order@[p as int] as int]) < ki);
                }
            }
            let ghost old_order = order@;
            order.insert(p, i);
            proof {
                assert(order@ =~= old_order.insert(p as int, i));
                lemma_key_order(rv, old_order, p as int, i);
            }
            i += 1;
        }
        proof { lemma_key_to_frequency(rv, order@); }
        order
    }

    fn key_of(r: &crate::store::CommandRow) -> (k: u128)
        ensures
            k == load_key(r@),
    {
        let lu: u128 = match r.last_used {
            Some(t) => ((t as i128) + 0x8000_0000_0000_0001i128) as u128,
            None => 0,
        };
        (r.frequency as u128) * 0x2_0000_0000_0000_0000u128 + lu
    }

    /// The searcher over a store, its rows in load order: descending
    /// frequency, then descending last use.
    pub fn new(store: CommandStore) -> (r: Self)
        requires
            store.wf(),
        ensures
            r.wf(),
            r.store_model() == store.model(),
            is_permutation(r.index_order(), store.model().0.len()),
            by_load_key(store.model().0, r.index_order()),
    {
        let order = Self::load_order(&store);
        HistorySearcher { store, order, matcher: default_matcher() }
    }

    pub fn store(&self) -> (r: &CommandStore)
        requires
            self.wf(),
        ensures
            r.model() == self.store_model(),
            r.wf(),
    {
        &self.store
    }

    pub fn len(&self) -> (r: usize)
        requires
            self.wf(),
        ensures
            r == self.entries().len(),
    {
        self.order.len()
    }

    /// The commands, by descending frequency.
    pub fn get_all_commands(&self) -> (r: Vec<IndexedCommand>)
        requires
            self.wf(),
        ensures
            commands_view(r@) == self.entries(),
    {
        let rows = self.store.rows();
        let ghost es = self.entries();
        let mut out: Vec<IndexedCommand> = Vec::new();
        let mut i: usize = 0;
        while i < self.order.len()
            invariant
                self.wf(),
                es == self.entries(),
                rows_view(rows@) == self.store.model().0,
                i <= self.order@.len(),
                commands_view(out@) == es.take(i as int),
            decreases self.order.len() - i,
        {
            let k = self.order[i];
            let r = &rows[k];
            assert(rows_view(rows@)[k as int] == r@);
            let c = IndexedCommand { id: r.id, command: r.command.clone(), frequency: r.frequency, last_used: r.last_used };
            let ghost before = commands_view(out@);
            out.push(c);
            assert(commands_view(out@) =~= before.push(c@));
            i += 1;
            assert(commands_view(out@) =~= es.take(i as int));
        }
        assert(es.take(i as int) =~= es);
        out
    }
}

proof fn lemma_key_order(rv: Seq<RowV>, order: Seq<usize>, p: int, i: usize)
    requires
        0 <= p <= order.len(),
        i < rv.len(),
        by_load_key(rv, order),
        forall|k: int| 0 <= k < p ==> load_key(rv[order[k] as int]) >= load_key(rv[i as int]),
        p < order.len() ==> load_key(rv[order[p] as int]) < load_key(rv[i as int]),
    ensures
        by_load_key(rv, order.insert(p, i)),
{
    let o = order.insert(p, i);
    assert forall|a: int, b: int| 0 <= a < b < o.len() implies load_key(rv[o[a] as int]) >= load_key(rv[o[b] as int]) by {
        if a == p && b > p {
            if b - 1 > p {
                assert(load_key(rv[order[p] as int]) >= load_key(rv[order[b - 1] as int]));
            }
        } else if a < p && b > p {
            assert(o[b] == order[b - 1]);
        }
    }
}

proof fn lemma_key_to_frequency(rv: Seq<RowV>, order: Seq<usize>)
    requires
        by_load_key(rv, order),
        forall|k: int| 0 <= k < order.len() ==> (#[trigger] order[k]) < rv.len(),
        forall|k: int| 0 <= k < rv.len() ==> (#[trigger] rv[k]).1 <= u32::MAX,
    ensures
        by_frequency(rv, order),
{
    assert forall|a: int, b: int| 0 <= a < b < order.len() implies rv[order[a] as int].1 >= rv[order[b] as int].1 by {
        lemma_key_freq(rv[order[a] as int], rv[order[b] as int]);
    }
}

proof fn lemma_key_freq(a: RowV, b: RowV)
    requires
        load_key(a) >= load_key(b),
    ensures
        a.1 >= b.1,
{
    let ca: int = match a.2 { Some(t) => t + 0x8000_0000_0000_0001, None => 0 };
    let cb: int = match b.2 { Some(t) => t + 0x8000_0000_0000_0001, None => 0 };
    assert(0 <= ca < 0x2_0000_0000_0000_0000);
    assert(0 <= cb < 0x2_0000_0000_0000_0000);
    if a.1 < b.1 {
        assert(a.1 * 0x2_0000_0000_0000_0000 + 0x2_0000_0000_0000_0000 <= b.1 * 0x2_0000_0000_0000_0000) by (nonlinear_arith)
            requires a.1 < b.1;
    }
}

} // verus!

verus! {

/// The store's name for a shell: `Bash`, `Zsh` or `Fish`.
pub open spec fn shell_name(shell: Shell) -> Seq<char> {
    match shell {
        Shell::Bash => seq!['B', 'a', 's', 'h'],
        Shell::Zsh => seq!['Z', 's', 'h'],
        Shell::Fish => seq!['F', 'i', 's', 'h'],
    }
}

pub fn shell_name_str(shell: Shell) -> (r: &'static str)
    ensures
        r@ == shell_name(shell),
{
    match shell {
        Shell::Bash => {
            proof { reveal_strlit("Bash"); }
            "Bash"
        },
        Shell::Zsh => {
            proof { reveal_strlit("Zsh"); }
            "Zsh"
        },
        Shell::Fish => {
            proof { reveal_strlit("Fish"); }
            "Fish"
        },
    }
}

/// `k`, found at `p` in `o`, moved forward to `q`, past the entries
/// it now outnumbers and no further; all others keep their order.
pub open spec fn moved_forward(o: Seq<usize>, o2: Seq<usize>, k: usize, rows: Seq<RowV>) -> bool {
    exists|p: int, q: int|
        0 <= q <= p < o.len() && o[p] == k && o2 == o.remove(p).insert(q, k) && (q == 0
            || rows[o[q - 1] as int].1 >= rows[k as int].1) && forall|i: int|
            q <= i < p ==> rows[o[i] as int].1 < rows[k as int].1
}

/// A permutation of `0..n` holds every index below `n`.
proof fn lemma_perm_has(o: Seq<usize>, n: nat, k: usize)
    requires
        is_permutation(o, n),
        k < n,
    ensures
        exists|i: int| 0 <= i < o.len() && o[i] == k,
{
    broadcast use vstd::set::group_set_axioms;
    if !(exists|i: int| 0 <= i < o.len() && o[i] == k) {
        let io = o.map_values(|x: usize| x as int);
        assert(io.no_duplicates()) by {
            assert forall|i: int, j: int| 0 <= i < io.len() && 0 <= j < io.len() && i != j implies io[i] != io[j] by {
                if i < j { assert(o[i] != o[j]); } else { assert(o[j] != o[i]); }
            }
        }
        io.unique_seq_to_set();
        vstd::set_lib::lemma_int_range(0, n as int);
        let r = vstd::set_lib::set_int_range(0, n as int).remove(k as int);
        assert(io.to_set().subset_of(r)) by {
            assert forall|x: int| io.to_set().contains(x) implies r.contains(x) by {
                let i = choose|i: int| 0 <= i < io.len() && io[i] == x;
                assert(o[i] < n);
                assert(o[i] != k);
            }
        }
        vstd::set_lib::lemma_len_subset(io.to_set(), r);
        assert(false);
    }
}

/// The most recently used command: the last of those with the greatest
/// last use, in index order.
pub open spec fn most_recent(cs: Seq<CommandV>) -> Option<CommandV>
    decreases cs.len(),
{
    if cs.len() == 0 {
        None
    } else {
        let m = most_recent(cs.drop_last());
        let c = cs.last();
        match c.3 {
            Some(t) => match m {
                Some(b) => if t >= b.3->0 {
                    Some(c)
                } else {
                    m
                },
                None => Some(c),
            },
            None => m,
        }
    }
}

impl HistorySearcher {
    /// Ranked search: with an empty query the most frequent commands; else
    /// the commands that match `query` fuzzily (a query longer than
    /// `MAX_QUERY_CHARS` matches nothing), by fuzzy score plus ten times
    /// their frequency, best first, ties in index order.
    pub fn search(&mut self, query: &str, limit: usize) -> (r: Vec<SearchResult>)
        requires
            old(self).wf(),
        ensures
            final(self).wf(),
            final(self).entries() == old(self).entries(),
            final(self).store_model() == old(self).store_model(),
            results_view(r@) == search_spec(old(self).entries(), query@, limit as nat),
    {
        let all = self.get_all_commands();
        let ghost cs = commands_view(all@);
        let qlen = query.unicode_len();
        if qlen == 0 {
            let n = if limit < all.len() { limit } else { all.len() };
            let mut out: Vec<SearchResult> = Vec::new();
            let mut i: usize = 0;
            while i < n
                invariant
                    cs == commands_view(all@),
                    n <= all@.len(),
                    i <= n,
                    results_view(out@) == cs.take(i as int).map_values(|c: CommandV| (c.1, c.2 as int)),
                decreases n - i,
            {
                let r = SearchResult { command: all[i].command.clone(), score: all[i].frequency as u64 };
                let ghost before = results_view(out@);
                out.push(r);
                assert(results_view(out@) =~= before.push((r.command@, r.score as int)));
                i += 1;
                assert(results_view(out@) =~= cs.take(i as int).map_values(|c: CommandV| (c.1, c.2 as int)));
            }
            return out;
        }
        let mut hits: Vec<(String, u128)> = Vec::new();
        let mut i: usize = 0;
        while i < all.len()
            invariant
                cs == commands_view(all@),
                cs == old(self).entries(),
                qlen == query@.len(),
                self.store == old(self).store,
                self.order == old(self).order,
                self.wf(),
                i <= all@.len(),
                scored_view(hits@) == fuzzy_hits(cs.take(i as int), query@),
                forall|k: int| 0 <= k < hits@.len() ==> (#[trigger] scored_view(hits@)[k]).1 <= 0x10_0000_0000,
            decreases all.len() - i,
        {
            let ghost t = cs.take(i as int + 1);
            assert(t.drop_last() =~= cs.take(i as int));
            assert(t.last() == all@[i as int]@);
            let c = &all[i];
            let len = c.command.as_str().unicode_len();
            if len <= 0xFFFF_FFFF && qlen <= MAX_QUERY_CHARS {
                match fuzzy_match(&mut self.matcher, c.command.as_str(), query) {
                    Some(s) => {
                        let score = s as u128 + 10 * (c.frequency as u128);
                        let ghost before = scored_view(hits@);
                        hits.push((c.command.clone(), score));
                        assert(scored_view(hits@) =~= before.push((c.command@, score as int)));
                        assert forall|k: int| 0 <= k < hits@.len() implies (#[trigger] scored_view(hits@)[k]).1 <= 0x10_0000_0000 by {
                            if k < before.len() {
                                assert(scored_view(hits@)[k] == before[k]);
                            }
                        }
                    },
                    None => {},
                }
            }
            i += 1;
        }
        assert(cs.take(i as int) =~= cs);
        let ghost hv = scored_view(hits@);
        proof { crate::rank::lemma_top(hv, limit as nat); }
        let best = top_scored(hits, limit);
        assert forall|k: int| 0 <= k < best@.len() implies (#[trigger] best@[k]).1 <= u64::MAX by {
            assert(scored_view(best@)[k] == top(hv, limit as nat)[k]);
            assert(hv.contains(top(hv, limit as nat)[k]));
        }
        let mut out: Vec<SearchResult> = Vec::new();
        let mut j: usize = 0;
        while j < best.len()
            invariant
                j <= best@.len(),
                results_view(out@) == scored_view(best@).take(j as int),
                forall|k: int| 0 <= k < best@.len() ==> (#[trigger] best@[k]).1 <= u64::MAX,
            decreases best.len() - j,
        {
            let r = SearchResult { command: best[j].0.clone(), score: best[j].1 as u64 };
            let ghost before = results_view(out@);
            out.push(r);
            assert(results_view(out@) =~= before.push((r.command@, r.score as int)));
            j += 1;
            assert(results_view(out@) =~= scored_view(best@).take(j as int));
        }
        assert(scored_view(best@).take(j as int) =~= scored_view(best@));
        out
    }
}

} // verus!

verus! {

impl HistorySearcher {
    fn freq_at(&self, k: usize) -> (f: u32)
        requires
            self.store.wf(),
            k < self.store.model().0.len(),
        ensures
            f as nat == self.store.model().0[k as int].1,
    {
        let rows = self.store.rows();
        assert(rows_view(rows@)[k as int] == rows@[k as int]@);
        rows[k].frequency
    }

    /// Records a use of `command` at `now` in the store, and moves the
    /// command forward in the index past those it now outnumbers.
    pub fn record_usage(&mut self, command: &str, now: i64) -> (r: Result<(), StoreError>)
        requires
            old(self).wf(),
        ensures
            final(self).wf(),
            r is Ok <==> (find_row(old(self).store_model().0, command@) is Some || old(self).store_model().2 < i64::MAX),
            r is Ok ==> final(self).store_model() == usage_spec(old(self).store_model(), command@, now),
            r is Ok ==> match find_row(old(self).store_model().0, command@) {
                None => final(self).index_order() == old(self).index_order().push(
                    old(self).store_model().0.len() as usize,
                ),
                Some(k) => moved_forward(old(self).index_order(), final(self).index_order(), k as usize, final(self).store_model().0),
            },
            r is Err ==> final(self).store_model() == old(self).store_model() && final(self).index_order() == old(self).index_order(),
    {
        let ghost m = self.store.model();
        let pos = self.store.find(command);
        match self.store.record_usage(command, now) {
            Ok(()) => {},
            Err(e) => return Err(e),
        }
        proof { crate::store::lemma_reopen(&self.store); }
        let ghost rows = self.store.model().0;
        match pos {
            None => {
                let n = self.order.len();
                let ghost o = self.order@;
                self.order.push(n);
                assert(rows.len() == n + 1);
                assert forall|i: int, j: int| 0 <= i < j < self.order@.len() implies rows[self.order@[i] as int].1 >= rows[self.order@[j] as int].1 by {
                    if j < n {
                        assert(rows[o[i] as int] == m.0[o[i] as int]);
                        assert(rows[o[j] as int] == m.0[o[j] as int]);
                    } else {
                        assert(rows[n as int].1 == 1);
                        assert(rows[o[i] as int].1 >= 1);
                    }
                }
                assert forall|i: int, j: int| 0 <= i < j < self.order@.len() implies self.order@[i] != self.order@[j] by {
                    if j == n {
                        assert(o[i] < n);
                    }
                }
            },
            Some(k) => {
                proof { lemma_perm_has(self.order@, rows.len(), k); }
                let mut p: usize = 0;
                while self.order[p] != k
                    invariant
                        p < self.order@.len(),
                        exists|i: int| p <= i < self.order@.len() && self.order@[i] == k,
                    decreases self.order@.len() - p,
                {
                    proof {
                        let i = choose|i: int| p <= i < self.order@.len() && self.order@[i] == k;
                        assert(i > p);
                    }
                    assert(p + 1 < self.order.len());
                    p += 1;
                }
                let ghost o0 = self.order@;
                let ghost p0 = p as int;
                let f = self.freq_at(k);
                let ghost m1 = self.store.model();
                assert(o0.remove(p0).insert(p0, k) =~= o0);
                while p > 0 && self.freq_at(self.order[p - 1]) < f
                    invariant
                        0 <= p <= p0 < o0.len(),
                        o0[p0] == k,
                        self.order@ == o0.remove(p0).insert(p as int, k),
                        forall|i: int| p <= i < p0 ==> rows[o0[i] as int].1 < f,
                        self.store.model() == m1,
                        self.store.wf(),
                        self.store.model().0 == rows,
                        is_permutation(self.order@, rows.len()),
                        p < self.order@.len(),
                        self.order@[p as int] == k,
                        f as nat == rows[k as int].1,
                        forall|i: int, j: int|
                            0 <= i < j < self.order@.len() && i != p && j != p ==> rows[self.order@[i] as int].1
                                >= rows[self.order@[j] as int].1,
                        forall|j: int| p < j < self.order@.len() ==> rows[k as int].1 >= rows[self.order@[j] as int].1,
                    decreases p,
                {
                    let a = self.order[p - 1];
                    let ghost o = self.order@;
                    assert(a == o0[p - 1]);
                    self.order.set(p - 1, k);
                    self.order.set(p, a);
                    assert(self.order@ =~= o.update(p - 1, k).update(p as int, a));
                    assert(self.order@ =~= o0.remove(p0).insert(p - 1, k));
                    assert forall|i: int, j: int| 0 <= i < j < self.order@.len() implies self.order@[i] != self.order@[j] by {
                        assert(o[p - 1] != o[p as int]);
                        if i == p - 1 && j != p as int { assert(o[p as int] != o[j]); }
                        if i == p as int { assert(o[p - 1] != o[j]); }
                        if j == p - 1 { assert(o[i] != o[p as int]); }
                        if j == p as int && i != p - 1 { assert(o[i] != o[p - 1]); }
                    }
                    p -= 1;
                }
                proof {
                    assert forall|i: int, j: int| 0 <= i < j < self.order@.len() implies rows[self.order@[i] as int].1 >= rows[self.order@[j] as int].1 by {
                        if j == p && i < p - 1 {
                            assert(rows[self.order@[i] as int].1 >= rows[self.order@[p - 1] as int].1);
                        }
                    }
                    assert forall|i: int, j: int| 0 <= i < j < self.order@.len() implies rows[self.order@[i] as int].1 >= rows[self.order@[j] as int].1 by {
                    }
                    if p > 0 {
                        assert(self.order@[p - 1] == o0[p - 1]);
                    }
                    assert(moved_forward(o0, self.order@, k, rows));
                }
            },
        }
        Ok(())
    }

    /// Syncs `shell`'s history into the store at time `now` and reloads
    /// the index in load order. Returns the number of new entries.
    pub fn sync_from_shell_history(&mut self, shell: Shell, history: &Vec<HistoryEntry>, now: i64) -> (r: Result<usize, StoreError>)
        requires
            old(self).wf(),
        ensures
            final(self).wf(),
            r is Ok <==> sync_fits(old(self).store_model(), shell_name(shell), entries(history@)),
            r matches Ok(n) ==> final(self).store_model() == sync_spec(old(self).store_model(), shell_name(shell), entries(history@), now)
                && n == new_entries(old(self).store_model(), shell_name(shell), entries(history@)).len(),
            r is Err ==> final(self).store_model() == old(self).store_model(),
            is_permutation(final(self).index_order(), final(self).store_model().0.len()),
            by_load_key(final(self).store_model().0, final(self).index_order()),
    {
        let r = self.store.sync(shell_name_str(shell), history, now);
        self.order = Self::load_order(&self.store);
        r
    }

    /// Upserts one history entry of `shell_source` and reloads the index.
    pub fn insert_or_update_command(&mut self, entry: &HistoryEntry, shell_source: &str) -> (r: Result<(), StoreError>)
        requires
            old(self).wf(),
        ensures
            final(self).wf(),
            r is Ok <==> (find_row(old(self).store_model().0, entry.command@) is Some || old(self).store_model().2 < i64::MAX),
            r is Ok ==> final(self).store_model() == upsert(old(self).store_model(), entry.command@, entry.timestamp, shell_source@),
            r is Err ==> final(self).store_model() == old(self).store_model(),
            is_permutation(final(self).index_order(), final(self).store_model().0.len()),
            by_load_key(final(self).store_model().0, final(self).index_order()),
    {
        let r = self.store.insert_or_update(entry, shell_source);
        self.order = Self::load_order(&self.store);
        r
    }

    /// The most recently used command, if any has a last use.
    pub fn most_recent_command(&self) -> (r: Option<IndexedCommand>)
        requires
            self.wf(),
        ensures
            match r {
                Some(c) => most_recent(self.entries()) == Some(c@),
                None => most_recent(self.entries()) is None,
            },
    {
        let all = self.get_all_commands();
        let ghost cs = commands_view(all@);
        let mut best: Option<usize> = None;
        let mut best_ts: i64 = 0;
        let mut i: usize = 0;
        while i < all.len()
            invariant
                cs == commands_view(all@),
                i <= all@.len(),
                match best {
                    Some(b) => b < i && most_recent(cs.take(i as int)) == Some(cs[b as int]) && cs[b as int].3 == Some(best_ts),
                    None => most_recent(cs.take(i as int)) is None,
                },
            decreases all.len() - i,
        {
            let ghost t = cs.take(i as int + 1);
            assert(t.drop_last() =~= cs.take(i as int));
            assert(t.last() == cs[i as int]);
            match all[i].last_used {
                Some(ts) => {
                    match best {
                        Some(b) => {
                            if ts >= best_ts {
                                best = Some(i);
                                best_ts = ts;
                            }
                        },
                        None => {
                            best = Some(i);
                            best_ts = ts;
                        },
                    }
                },
                None => {},
            }
            i += 1;
        }
        assert(cs.take(i as int) =~= cs);
        match best {
            Some(b) => {
                let c = &all[b];
                assert(cs[b as int] == c@);
                Some(IndexedCommand { id: c.id, command: c.command.clone(), frequency: c.frequency, last_used: c.last_used })
            },
            None => None,
        }
    }
}

} // verus!

verus! {

/// What syncing the shells' histories came to.
#[derive(Debug)]
pub struct SyncResult {
    /// New commands indexed, over all shells (at most `usize::MAX`).
    pub total_synced: usize,
    /// One line for each shell that failed to sync.
    pub warnings: Vec<String>,
}

pub open spec fn sync_warning(shell: Shell, msg: Seq<char>) -> Seq<char> {
    seq!['F', 'a', 'i', 'l', 'e', 'd', ' ', 't', 'o', ' ', 's', 'y', 'n', 'c', ' '] + shell_name(shell)
        + seq![' ', 'h', 'i', 's', 't', 'o', 'r', 'y', ':', ' '] + msg
}

impl SyncResult {
    pub fn new() -> (r: Self)
        ensures
            r.total_synced == 0,
            r.warnings@.len() == 0,
    {
        SyncResult { total_synced: 0, warnings: Vec::new() }
    }

    /// Adds one shell's outcome: its count of new commands, or its error.
    pub fn record(&mut self, shell: Shell, outcome: Result<usize, String>)
        ensures
            match outcome {
                Ok(n) => final(self).total_synced == (if old(self).total_synced + n > usize::MAX {
                    usize::MAX as int
                } else {
                    old(self).total_synced + n
                }) && final(self).warnings@ == old(self).warnings@,
                Err(e) => final(self).total_synced == old(self).total_synced
                    && crate::text::strs(final(self).warnings@) == crate::text::strs(old(self).warnings@).push(
                    sync_warning(shell, e@),
                ),
            },
    {
        match outcome {
            Ok(n) => {
                self.total_synced = self.total_synced.saturating_add(n);
            },
            Err(e) => {
                proof {
                    reveal_strlit("Failed to sync ");
                    reveal_strlit(" history: ");
                }
                let mut w = String::from_str("Failed to sync ");
                w.append(shell_name_str(shell));
                w.append(" history: ");
                w.append(e.as_str());
                assert(w@ =~= sync_warning(shell, e@));
                let ghost before = crate::text::strs(self.warnings@);
                self.warnings.push(w);
                assert(crate::text::strs(self.warnings@) =~= before.push(sync_warning(shell, e@)));
            },
        }
    }
}

} // verus!

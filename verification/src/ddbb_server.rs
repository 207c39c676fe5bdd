//! The state of a server: the write-ahead log of decided entries, the
//! key-value map they build, and how decided entries are applied to both.
use vstd::prelude::*;
use crate::data_structure::{LogEntry, LogEntryV, opt_bytes_view, copy_bytes};
use crate::frame::Error;

verus! {

/// The views of a sequence of log entries.
pub open spec fn entries_view(s: Seq<LogEntry>) -> Seq<LogEntryV> {
    s.map_values(|e: LogEntry| e@)
}

// ---------------------------------------------------------------- WALStore

/// The write-ahead log of a server, newest entry first, with the count of
/// decided suffixes read so far.
#[derive(Debug)]
pub struct WALStore {
    idx: u64,
    store: Vec<LogEntry>,
}

pub struct WALStoreV {
    pub idx: u64,
    pub entries: Seq<LogEntryV>,
}

impl View for WALStore {
    type V = WALStoreV;

    closed spec fn view(&self) -> WALStoreV {
        WALStoreV { idx: self.idx, entries: entries_view(self.store@) }
    }
}

impl WALStore {
    /// An empty log.
    pub fn new() -> (r: WALStore)
        ensures
            r@.idx == 0,
            r@.entries == Seq::<LogEntryV>::empty(),
    {
        let r = WALStore { store: Vec::new(), idx: 0 };
        assert(r@.entries =~= Seq::<LogEntryV>::empty());
        r
    }

    /// Puts `log` at the head of the log.
    pub fn append(&mut self, log: LogEntry)
        ensures
            final(self)@.idx == old(self)@.idx,
            final(self)@.entries == seq![log@] + old(self)@.entries,
    {
        let ghost e = log@;
        self.store.insert(0, log);
        assert(self@.entries =~= seq![e] + old(self)@.entries);
    }

    /// The count of decided suffixes read so far.
    pub fn diceded(&self) -> (r: u64)
        ensures
            r == self@.idx,
    {
        self.idx
    }

    /// Counts one more decided suffix as read.
    fn advance(&mut self)
        requires
            old(self)@.idx < u64::MAX,
        ensures
            final(self)@.idx == old(self)@.idx + 1,
            final(self)@.entries == old(self)@.entries,
    {
        self.idx = self.idx + 1;
    }
}

// ---------------------------------------------------------------- KVStore

/// The map that the pairs of an association list build, later pairs
/// overriding earlier ones.
pub open spec fn pairs_map(s: Seq<(String, Vec<u8>)>) -> Map<Seq<char>, Seq<u8>>
    decreases s.len(),
{
    if s.len() == 0 {
        Map::empty()
    } else {
        pairs_map(s.drop_last()).insert(s.last().0@, s.last().1@)
    }
}

/// No key occurs twice.
pub open spec fn keys_distinct(s: Seq<(String, Vec<u8>)>) -> bool {
    forall|i: int, j: int| 0 <= i < j < s.len() ==> s[i].0@ != s[j].0@
}

pub proof fn lemma_pairs_map_lookup(s: Seq<(String, Vec<u8>)>, k: Seq<char>)
    requires
        keys_distinct(s),
    ensures
        pairs_map(s).contains_key(k) <==> exists|i: int| 0 <= i < s.len() && s[i].0@ == k,
        forall|i: int|
            0 <= i < s.len() && s[i].0@ == k ==> pairs_map(s)[k] == #[trigger] s[i].1@,
    decreases s.len(),
{
    if s.len() > 0 {
        let t = s.drop_last();
        assert(keys_distinct(t));
        lemma_pairs_map_lookup(t, k);
        if pairs_map(s).contains_key(k) {
            if s.last().0@ == k {
                assert(s[s.len() - 1].0@ == k);
            } else {
                let i = choose|i: int| 0 <= i < t.len() && t[i].0@ == k;
                assert(s[i].0@ == k);
            }
        }
        if exists|i: int| 0 <= i < s.len() && s[i].0@ == k {
            let i = choose|i: int| 0 <= i < s.len() && s[i].0@ == k;
            if i < s.len() - 1 {
                assert(t[i].0@ == k);
            }
        }
        assert forall|i: int| 0 <= i < s.len() && s[i].0@ == k implies pairs_map(s)[k]
            == #[trigger] s[i].1@ by {
            if i < s.len() - 1 {
                assert(t[i] == s[i]);
            }
        }
    }
}

pub proof fn lemma_pairs_map_update(s: Seq<(String, Vec<u8>)>, i: int, p: (String, Vec<u8>))
    requires
        keys_distinct(s),
        0 <= i < s.len(),
        s[i].0@ == p.0@,
    ensures
        keys_distinct(s.update(i, p)),
        pairs_map(s.update(i, p)) == pairs_map(s).insert(p.0@, p.1@),
    decreases s.len(),
{
    let u = s.update(i, p);
    assert(keys_distinct(u)) by {
        assert forall|a: int, b: int| 0 <= a < b < u.len() implies u[a].0@ != u[b].0@ by {
            assert(s[a].0@ != s[b].0@);
        }
    }
    if i == s.len() - 1 {
        assert(u.drop_last() =~= s.drop_last());
        assert(pairs_map(u) =~= pairs_map(s).insert(p.0@, p.1@));
    } else {
        lemma_pairs_map_update(s.drop_last(), i, p);
        assert(u.drop_last() =~= s.drop_last().update(i, p));
        assert(s.last().0@ != p.0@) by {
            assert(s[i].0@ != s[s.len() - 1].0@);
        }
        assert(pairs_map(u) =~= pairs_map(s).insert(p.0@, p.1@));
    }
}

/// The key-value map of a server.
#[derive(Debug)]
pub struct KVStore {
    store: Vec<(String, Vec<u8>)>,
}

impl View for KVStore {
    type V = Map<Seq<char>, Seq<u8>>;

    closed spec fn view(&self) -> Map<Seq<char>, Seq<u8>> {
        pairs_map(self.store@)
    }
}

impl KVStore {
    #[verifier::type_invariant]
    closed spec fn wf(&self) -> bool {
        keys_distinct(self.store@)
    }

    /// An empty map.
    pub fn new() -> (r: KVStore)
        ensures
            r@ == Map::<Seq<char>, Seq<u8>>::empty(),
    {
        KVStore { store: Vec::new() }
    }

    /// The position of `key`, if it is there.
    fn position(&self, key: &String) -> (r: Option<usize>)
        ensures
            match r {
                Some(i) => i < self.store@.len() && self.store@[i as int].0@ == key@,
                None => forall|i: int| 0 <= i < self.store@.len() ==> self.store@[i].0@ != key@,
            },
    {
        let mut i: usize = 0;
        while i < self.store.len()
            invariant
                i <= self.store@.len(),
                forall|j: int| 0 <= j < i ==> self.store@[j].0@ != key@,
            decreases self.store.len() - i,
        {
            if self.store[i].0 == *key {
                return Some(i);
            }
            i = i + 1;
        }
        None
    }

    /// Maps `key` to `value`.
    pub fn put(&mut self, key: String, value: Vec<u8>)
        ensures
            final(self)@ == old(self)@.insert(key@, value@),
    {
        proof {
            use_type_invariant(&*self);
        }
        let ghost k = key@;
        let ghost v = value@;
        match self.position(&key) {
            Some(i) => {
                let ghost s = self.store@;
                proof {
                    lemma_pairs_map_update(s, i as int, (key, value));
                }
                let mut store: Vec<(String, Vec<u8>)> = Vec::new();
                std::mem::swap(&mut store, &mut self.store);
                store.set(i, (key, value));
                self.store = store;
            },
            None => {
                let ghost s = self.store@;
                let ghost t = s.push((key, value));
                proof {
                    assert(t.drop_last() =~= s);
                    assert(keys_distinct(t)) by {
                        assert forall|a: int, b: int| 0 <= a < b < t.len() implies t[a].0@
                            != t[b].0@ by {
                            if b == t.len() - 1 {
                                assert(s[a].0@ != k);
                            } else {
                                assert(s[a].0@ != s[b].0@);
                            }
                        }
                    }
                }
                let mut store: Vec<(String, Vec<u8>)> = Vec::new();
                std::mem::swap(&mut store, &mut self.store);
                store.push((key, value));
                self.store = store;
            },
        }
    }

    /// The value of `key`, if it has one.
    pub fn get(&self, key: String) -> (r: Option<&Vec<u8>>)
        ensures
            match r {
                Some(v) => self@.contains_key(key@) && v@ == self@[key@],
                None => !self@.contains_key(key@),
            },
    {
        proof {
            use_type_invariant(self);
            lemma_pairs_map_lookup(self.store@, key@);
        }
        match self.position(&key) {
            Some(i) => Some(&self.store[i].1),
            None => None,
        }
    }
}

/// The map that a sequence of puts, applied in order, makes of `m`.
pub open spec fn apply_puts(m: Map<Seq<char>, Seq<u8>>, puts: Seq<(Seq<char>, Seq<u8>)>) -> Map<
    Seq<char>,
    Seq<u8>,
>
    decreases puts.len(),
{
    if puts.len() == 0 {
        m
    } else {
        apply_puts(m, puts.drop_last()).insert(puts.last().0, puts.last().1)
    }
}

/// Whether no put of `puts` is on `key`.
pub open spec fn puts_avoid(puts: Seq<(Seq<char>, Seq<u8>)>, key: Seq<char>) -> bool {
    forall|i: int| 0 <= i < puts.len() ==> (#[trigger] puts[i]).0 != key
}

proof fn lemma_puts_avoid_keep(m: Map<Seq<char>, Seq<u8>>, puts: Seq<(Seq<char>, Seq<u8>)>, key: Seq<char>)
    requires
        puts_avoid(puts, key),
    ensures
        apply_puts(m, puts).contains_key(key) == m.contains_key(key),
        m.contains_key(key) ==> apply_puts(m, puts)[key] == m[key],
    decreases puts.len(),
{
    if puts.len() > 0 {
        assert(puts.last() == puts[puts.len() - 1]);
        lemma_puts_avoid_keep(m, puts.drop_last(), key);
    }
}

/// A read of `key` after a put of `key` and puts on other keys only gives
/// the value of that put.
pub proof fn lemma_get_after_put(
    m: Map<Seq<char>, Seq<u8>>,
    key: Seq<char>,
    value: Seq<u8>,
    later: Seq<(Seq<char>, Seq<u8>)>,
)
    requires
        puts_avoid(later, key),
    ensures
        apply_puts(m, seq![(key, value)] + later).contains_key(key),
        apply_puts(m, seq![(key, value)] + later)[key] == value,
    decreases later.len(),
{
    let all = seq![(key, value)] + later;
    if later.len() == 0 {
        assert(all.drop_last() =~= Seq::<(Seq<char>, Seq<u8>)>::empty());
    } else {
        assert(all.drop_last() =~= seq![(key, value)] + later.drop_last());
        assert(later.last() == later[later.len() - 1]);
        assert(puts_avoid(later.drop_last(), key)) by {
            assert forall|i: int| 0 <= i < later.drop_last().len() implies (
            #[trigger] later.drop_last()[i]).0 != key by {
                assert(later.drop_last()[i] == later[i]);
            }
        }
        lemma_get_after_put(m, key, value, later.drop_last());
    }
}

/// A key that no put was on is not in the map that puts make of an empty
/// one.
pub proof fn lemma_get_never_put(puts: Seq<(Seq<char>, Seq<u8>)>, key: Seq<char>)
    requires
        puts_avoid(puts, key),
    ensures
        !apply_puts(Map::<Seq<char>, Seq<u8>>::empty(), puts).contains_key(key),
{
    lemma_puts_avoid_keep(Map::empty(), puts, key);
}

} // verus!

verus! {

// ---------------------------------------------------------------- compaction

/// The key that an entry writes, if it is a write.
pub open spec fn written_key(e: LogEntryV) -> Option<Seq<char>> {
    match e {
        LogEntryV::SetValue { key, .. } => Some(key),
        LogEntryV::LINWrite { key, .. } => Some(key),
        _ => None,
    }
}

/// Compaction of a log read newest first. Phase 0 lies before the first
/// `Compact`, phase 1 between the first and the second, phase 2 after the
/// second; `seen` holds the keys written by the entries read so far.
/// Phase 0 keeps every entry; the first `Compact` is kept and the later
/// ones dropped; later phases keep a write only if no newer write had its
/// key; reads are kept up to the second `Compact`.
pub open spec fn compacted_from(es: Seq<LogEntryV>, phase: nat, seen: Set<Seq<char>>) -> Seq<
    LogEntryV,
>
    decreases es.len(),
{
    if es.len() == 0 {
        Seq::empty()
    } else {
        let e = es[0];
        let rest = es.drop_first();
        match e {
            LogEntryV::LINRead { .. } => if phase < 2 {
                seq![e] + compacted_from(rest, phase, seen)
            } else {
                compacted_from(rest, phase, seen)
            },
            LogEntryV::Compact => if phase == 0 {
                seq![e] + compacted_from(rest, 1, seen)
            } else {
                compacted_from(rest, 2, seen)
            },
            _ => {
                let key = written_key(e)->0;
                if phase == 0 || !seen.contains(key) {
                    seq![e] + compacted_from(rest, phase, seen.insert(key))
                } else {
                    compacted_from(rest, phase, seen.insert(key))
                }
            },
        }
    }
}

/// The compaction of a whole log.
pub open spec fn compacted(es: Seq<LogEntryV>) -> Seq<LogEntryV> {
    compacted_from(es, 0, Set::empty())
}

/// The map that the writes of a log build, the newest write of a key
/// giving its value.
pub open spec fn replay(es: Seq<LogEntryV>) -> Map<Seq<char>, Seq<u8>>
    decreases es.len(),
{
    if es.len() == 0 {
        Map::empty()
    } else {
        let m = replay(es.drop_first());
        match es[0] {
            LogEntryV::SetValue { key, value } => m.insert(key, value),
            LogEntryV::LINWrite { key, value, .. } => m.insert(key, value),
            _ => m,
        }
    }
}

/// Whether `key` is among the keys of `keys`.
fn contains_key(keys: &Vec<String>, key: &String) -> (r: bool)
    ensures
        r == (exists|i: int| 0 <= i < keys@.len() && keys@[i]@ == key@),
{
    let mut i: usize = 0;
    while i < keys.len()
        invariant
            i <= keys@.len(),
            forall|j: int| 0 <= j < i ==> keys@[j]@ != key@,
        decreases keys.len() - i,
    {
        if keys[i] == *key {
            return true;
        }
        i = i + 1;
    }
    false
}

/// The keys of a sequence of strings, as a set.
pub open spec fn key_set(keys: Seq<String>) -> Set<Seq<char>> {
    Set::new(|k: Seq<char>| exists|i: int| 0 <= i < keys.len() && keys[i]@ == k)
}

proof fn lemma_key_set_push(keys: Seq<String>, k: String)
    ensures
        key_set(keys.push(k)) == key_set(keys).insert(k@),
{
    let a = key_set(keys.push(k));
    let b = key_set(keys).insert(k@);
    assert forall|x: Seq<char>| a.contains(x) implies b.contains(x) by {
        let i = choose|i: int| 0 <= i < keys.push(k).len() && keys.push(k)[i]@ == x;
        if i < keys.len() {
            assert(keys[i]@ == x);
        }
    }
    assert forall|x: Seq<char>| b.contains(x) implies a.contains(x) by {
        if x == k@ {
            assert(keys.push(k)[keys.len() as int]@ == x);
        } else {
            let i = choose|i: int| 0 <= i < keys.len() && keys[i]@ == x;
            assert(keys.push(k)[i]@ == x);
        }
    }
    assert(a =~= b);
}

proof fn lemma_compacted_step(es: Seq<LogEntryV>, i: int)
    requires
        0 <= i < es.len(),
    ensures
        es.subrange(i, es.len() as int)[0] == es[i],
        es.subrange(i, es.len() as int).drop_first() == es.subrange(i + 1, es.len() as int),
{
    assert(es.subrange(i, es.len() as int).drop_first() =~= es.subrange(i + 1, es.len() as int));
}

/// The compaction of a log (see [`compacted`]).
pub fn compact_entries(store: &Vec<LogEntry>) -> (r: Vec<LogEntry>)
    ensures
        entries_view(r@) == compacted(entries_view(store@)),
{
    let ghost es = entries_view(store@);
    let mut befor_first_compact = true;
    let mut befor_second_compact = true;
    let mut can_discard_write: Vec<String> = Vec::new();
    let mut new_log_vec: Vec<LogEntry> = Vec::new();
    let ghost mut phase: nat = 0;
    let mut i: usize = 0;
    proof {
        assert(es.subrange(0, es.len() as int) =~= es);
        assert(key_set(can_discard_write@) =~= Set::<Seq<char>>::empty());
        assert(entries_view(new_log_vec@) =~= Seq::<LogEntryV>::empty());
    }
    while i < store.len()
        invariant
            es == entries_view(store@),
            i <= store@.len(),
            befor_first_compact ==> befor_second_compact,
            phase == (if befor_first_compact {
                0nat
            } else if befor_second_compact {
                1nat
            } else {
                2nat
            }),
            compacted(es) == entries_view(new_log_vec@) + compacted_from(
                es.subrange(i as int, es.len() as int),
                phase,
                key_set(can_discard_write@),
            ),
        decreases store.len() - i,
    {
        let ghost seen = key_set(can_discard_write@);
        let ghost rest = es.subrange(i + 1, es.len() as int);
        let ghost before = entries_view(new_log_vec@);
        proof {
            lemma_compacted_step(es, i as int);
        }
        let log = &store[i];
        let ghost e = log@;
        assert(e == es[i as int]);
        match log {
            LogEntry::SetValue { key, .. } | LogEntry::LINWrite { key, .. } => {
                let ghost pre_marks = can_discard_write@;
                let marked = contains_key(&can_discard_write, key);
                assert(marked == seen.contains(key@));
                if befor_first_compact && befor_second_compact {
                    new_log_vec.push(log.copy());
                    can_discard_write.push(key.clone());
                } else if !befor_first_compact && befor_second_compact {
                    if !marked {
                        new_log_vec.push(log.copy());
                        can_discard_write.push(key.clone());
                    }
                } else if !befor_first_compact && !befor_second_compact {
                    if !marked {
                        new_log_vec.push(log.copy());
                        can_discard_write.push(key.clone());
                    }
                }
                proof {
                    if can_discard_write@.len() != pre_marks.len() {
                        assert(can_discard_write@ == pre_marks.push(*key));
                        lemma_key_set_push(pre_marks, *key);
                    } else {
                        assert(can_discard_write@ == pre_marks);
                        assert(seen.insert(key@) =~= seen);
                    }
                }
                assert(compacted(es) == entries_view(new_log_vec@) + compacted_from(
                    rest,
                    phase,
                    key_set(can_discard_write@),
                )) by {
                    assert(entries_view(new_log_vec@) =~= before + seq![e]
                        || entries_view(new_log_vec@) =~= before);
                    assert(entries_view(new_log_vec@) + compacted_from(rest, phase, seen.insert(key@))
                        =~= before + compacted_from(
                        es.subrange(i as int, es.len() as int),
                        phase,
                        seen,
                    ));
                }
            },
            LogEntry::LINRead { .. } => {
                if befor_first_compact && befor_second_compact {
                    new_log_vec.push(log.copy());
                } else if !befor_first_compact && befor_second_compact {
                    new_log_vec.push(log.copy());
                } else if !befor_first_compact && !befor_second_compact {
                }
                assert(entries_view(new_log_vec@) + compacted_from(rest, phase, seen) =~= before
                    + compacted_from(es.subrange(i as int, es.len() as int), phase, seen));
            },
            LogEntry::Compact => {
                if befor_first_compact && befor_second_compact {
                    befor_first_compact = false;
                    new_log_vec.push(log.copy());
                } else if !befor_first_compact && befor_second_compact {
                    befor_second_compact = false;
                }
                proof {
                    let old_phase = phase;
                    phase = if befor_first_compact {
                        0nat
                    } else if befor_second_compact {
                        1nat
                    } else {
                        2nat
                    };
                    assert(entries_view(new_log_vec@) + compacted_from(rest, phase, seen) =~= before
                        + compacted_from(es.subrange(i as int, es.len() as int), old_phase, seen));
                }
            },
        }
        i = i + 1;
    }
    proof {
        assert(es.subrange(i as int, es.len() as int) =~= Seq::<LogEntryV>::empty());
        assert(compacted(es) =~= entries_view(new_log_vec@));
    }
    new_log_vec
}

} // verus!

verus! {

proof fn lemma_replay_cons(e: LogEntryV, s: Seq<LogEntryV>)
    ensures
        replay(seq![e] + s) == match e {
            LogEntryV::SetValue { key, value } => replay(s).insert(key, value),
            LogEntryV::LINWrite { key, value, .. } => replay(s).insert(key, value),
            _ => replay(s),
        },
{
    assert((seq![e] + s).drop_first() =~= s);
}

proof fn lemma_compacted_from_replay(es: Seq<LogEntryV>, phase: nat, seen: Set<Seq<char>>, k: Seq<char>)
    requires
        !seen.contains(k),
    ensures
        replay(compacted_from(es, phase, seen)).contains_key(k) == replay(es).contains_key(k),
        replay(es).contains_key(k) ==> replay(compacted_from(es, phase, seen))[k] == replay(es)[k],
    decreases es.len(),
{
    if es.len() > 0 {
        let e = es[0];
        let rest = es.drop_first();
        match e {
            LogEntryV::LINRead { .. } => {
                lemma_compacted_from_replay(rest, phase, seen, k);
                lemma_replay_cons(e, compacted_from(rest, phase, seen));
            },
            LogEntryV::Compact => {
                let p2: nat = if phase == 0 { 1 } else { 2 };
                lemma_compacted_from_replay(rest, p2, seen, k);
                lemma_replay_cons(e, compacted_from(rest, p2, seen));
            },
            _ => {
                let key = written_key(e)->0;
                if key != k {
                    lemma_compacted_from_replay(rest, phase, seen.insert(key), k);
                }
                lemma_replay_cons(e, compacted_from(rest, phase, seen.insert(key)));
            },
        }
    }
}

/// Compaction keeps what the log replays to: every key keeps its newest
/// written value, and no key is added or lost.
pub proof fn lemma_compaction_keeps_replay(es: Seq<LogEntryV>)
    ensures
        replay(compacted(es)) == replay(es),
{
    assert forall|k: Seq<char>| #[trigger] replay(compacted(es)).contains_key(k) == replay(es).contains_key(k) by {
        lemma_compacted_from_replay(es, 0, Set::empty(), k);
    }
    assert forall|k: Seq<char>| replay(es).contains_key(k) implies #[trigger] replay(compacted(es))[k]
        == replay(es)[k] by {
        lemma_compacted_from_replay(es, 0, Set::empty(), k);
    }
    assert(replay(compacted(es)) =~= replay(es));
}

} // verus!

verus! {

// ---------------------------------------------------------------- the server state

/// How long a linearizable operation polls for its decided entry: this many
/// rounds.
pub const LIN_WRITE_TIMES_OUT: u64 = 100;

/// The log and the map of a server.
pub struct ReplicaV {
    pub entries: Seq<LogEntryV>,
    pub kv: Map<Seq<char>, Seq<u8>>,
}

/// The value of `key` in `kv`, if it has one.
pub open spec fn lookup(kv: Map<Seq<char>, Seq<u8>>, key: Seq<char>) -> Option<Seq<u8>> {
    if kv.contains_key(key) {
        Some(kv[key])
    } else {
        None
    }
}

/// Applies one decided entry: a write updates the map and is logged; a read
/// is logged with the value that the map holds for its key; a `Compact` is
/// logged and the log compacted.
pub open spec fn apply_entry(s: ReplicaV, e: LogEntryV) -> ReplicaV {
    match e {
        LogEntryV::SetValue { key, value } => ReplicaV {
            entries: seq![e] + s.entries,
            kv: s.kv.insert(key, value),
        },
        LogEntryV::LINRead { opid, key, .. } => ReplicaV {
            entries: seq![LogEntryV::LINRead { opid, key, value: lookup(s.kv, key) }] + s.entries,
            kv: s.kv,
        },
        LogEntryV::LINWrite { key, value, .. } => ReplicaV {
            entries: seq![e] + s.entries,
            kv: s.kv.insert(key, value),
        },
        LogEntryV::Compact => ReplicaV { entries: compacted(seq![e] + s.entries), kv: s.kv },
    }
}

/// An entry of a suffix read from the consensus layer: a decided log entry,
/// or an entry of another kind, which is skipped.
#[derive(Debug)]
pub enum SuffixEntry {
    Decided(LogEntry),
    Other,
}

pub open spec fn suffix_view(s: Seq<SuffixEntry>) -> Seq<Option<LogEntryV>> {
    s.map_values(
        |e: SuffixEntry|
            match e {
                SuffixEntry::Decided(l) => Some(l@),
                SuffixEntry::Other => None,
            },
    )
}

/// Applies the decided entries of a suffix in order.
pub open spec fn apply_suffix(s: ReplicaV, es: Seq<Option<LogEntryV>>) -> ReplicaV
    decreases es.len(),
{
    if es.len() == 0 {
        s
    } else {
        let t = apply_suffix(s, es.drop_last());
        match es.last() {
            Some(e) => apply_entry(t, e),
            None => t,
        }
    }
}

/// The entry that the operation id `(addr, ts)` has in a log read newest
/// first: the search passes over linearizable reads and writes of other
/// operations and stops at the first entry of another kind.
pub open spec fn find_opid(es: Seq<LogEntryV>, addr: Seq<char>, ts: u64) -> Option<LogEntryV>
    decreases es.len(),
{
    if es.len() == 0 {
        None
    } else {
        match es[0] {
            LogEntryV::LINRead { opid, .. } => if opid == (addr, ts) {
                Some(es[0])
            } else {
                find_opid(es.drop_first(), addr, ts)
            },
            LogEntryV::LINWrite { opid, .. } => if opid == (addr, ts) {
                Some(es[0])
            } else {
                find_opid(es.drop_first(), addr, ts)
            },
            _ => None,
        }
    }
}

#[derive(Debug)]
struct NodeInfo {
    id: u64,
    addr: String,
}

/// The state of a server.
#[derive(Debug)]
pub struct DDBB {
    node_info: NodeInfo,
    wal_store: WALStore,
    kv_store: KVStore,
    timestamp: u64,
}

pub struct DDBBV {
    pub id: u64,
    pub addr: Seq<char>,
    pub idx: u64,
    pub entries: Seq<LogEntryV>,
    pub kv: Map<Seq<char>, Seq<u8>>,
    pub timestamp: u64,
}

impl DDBBV {
    pub open spec fn replica(self) -> ReplicaV {
        ReplicaV { entries: self.entries, kv: self.kv }
    }
}

impl View for DDBB {
    type V = DDBBV;

    closed spec fn view(&self) -> DDBBV {
        DDBBV {
            id: self.node_info.id,
            addr: self.node_info.addr@,
            idx: self.wal_store@.idx,
            entries: self.wal_store@.entries,
            kv: self.kv_store@,
            timestamp: self.timestamp,
        }
    }
}

/// What one round of polling for a linearizable write decides.
#[derive(Debug)]
pub enum LinWriteStep {
    Done(Result<(), Error>),
    Retry(u64),
}

/// What one round of polling for a linearizable read decides.
#[derive(Debug)]
pub enum LinReadStep {
    Done(Result<Option<Vec<u8>>, Error>),
    Retry(u64),
}

impl DDBB {
    /// A server with the id `id` at the address `self_addr`, with an empty
    /// log and map.
    pub fn new(id: u64, self_addr: String) -> (r: DDBB)
        ensures
            r@.id == id,
            r@.addr == self_addr@,
            r@.idx == 0,
            r@.entries == Seq::<LogEntryV>::empty(),
            r@.kv == Map::<Seq<char>, Seq<u8>>::empty(),
            r@.timestamp == 0,
    {
        DDBB {
            node_info: NodeInfo { id, addr: self_addr },
            wal_store: WALStore::new(),
            kv_store: KVStore::new(),
            timestamp: 0,
        }
    }

    /// The timestamp of the server.
    pub fn timestamp(&self) -> (r: u64)
        ensures
            r == self@.timestamp,
    {
        self.timestamp
    }

    /// The count of decided suffixes read so far.
    pub fn decided_idx(&self) -> (r: u64)
        ensures
            r == self@.idx,
    {
        self.wal_store.diceded()
    }

    /// Advances the timestamp of the server.
    pub fn add_ts(&mut self)
        requires
            old(self)@.timestamp < u64::MAX,
        ensures
            final(self)@ == (DDBBV { timestamp: (old(self)@.timestamp + 1) as u64, ..old(self)@ }),
    {
        self.timestamp = self.timestamp + 1;
    }

    /// The value of `key` in the map, if it has one.
    pub fn get(&self, key: String) -> (r: Option<Vec<u8>>)
        ensures
            opt_bytes_view(r) == lookup(self@.kv, key@),
    {
        match self.kv_store.get(key) {
            Some(value) => Some(copy_bytes(value)),
            None => None,
        }
    }

    /// Maps `key` to `value` in the map and gives the entry to propose to
    /// the consensus layer.
    pub fn set(&mut self, key: String, value: Vec<u8>) -> (log: LogEntry)
        ensures
            final(self)@ == (DDBBV { kv: old(self)@.kv.insert(key@, value@), ..old(self)@ }),
            log@ == (LogEntryV::SetValue { key: key@, value: value@ }),
    {
        self.kv_store.put(key.clone(), copy_bytes(&value));
        LogEntry::SetValue { key, value }
    }

    /// The entry to propose to compact the logs.
    pub fn compact(&self) -> (log: LogEntry)
        ensures
            log@ == LogEntryV::Compact,
    {
        LogEntry::Compact
    }

    /// The entry of the operation id `(addr, ts)` in the log (see
    /// [`find_opid`]).
    pub fn find_log_by_opid(&self, addr: &String, ts: u64) -> (r: Option<LogEntry>)
        ensures
            match r {
                Some(l) => find_opid(self@.entries, addr@, ts) == Some(l@),
                None => find_opid(self@.entries, addr@, ts) is None,
            },
    {
        let ghost es = self@.entries;
        let store = &self.wal_store.store;
        let mut i: usize = 0;
        proof {
            assert(es.subrange(0, es.len() as int) =~= es);
        }
        while i < store.len()
            invariant
                es == entries_view(store@),
                es == self@.entries,
                i <= store@.len(),
                find_opid(es, addr@, ts) == find_opid(es.subrange(i as int, es.len() as int), addr@, ts),
            decreases store.len() - i,
        {
            let ghost sub = es.subrange(i as int, es.len() as int);
            assert(sub[0] == es[i as int]);
            assert(sub.drop_first() =~= es.subrange(i + 1, es.len() as int));
            let log = &store[i];
            match log {
                LogEntry::LINRead { opid, .. } | LogEntry::LINWrite { opid, .. } => {
                    if opid.0 == *addr && opid.1 == ts {
                        return Some(log.copy());
                    }
                },
                _ => {
                    return None;
                },
            }
            i = i + 1;
        }
        None
    }
}

} // verus!

verus! {

impl DDBB {
    /// Compacts the log (see [`compacted`]).
    pub fn snapshot(&mut self)
        ensures
            final(self)@ == (DDBBV { entries: compacted(old(self)@.entries), ..old(self)@ }),
    {
        let new_log_vec = compact_entries(&self.wal_store.store);
        self.wal_store.store = new_log_vec;
    }

    /// Applies one decided entry (see [`apply_entry`]).
    fn apply_decided(&mut self, log: &LogEntry)
        ensures
            final(self)@.replica() == apply_entry(old(self)@.replica(), log@),
            final(self)@.id == old(self)@.id,
            final(self)@.addr == old(self)@.addr,
            final(self)@.idx == old(self)@.idx,
            final(self)@.timestamp == old(self)@.timestamp,
    {
        match log {
            LogEntry::SetValue { key, value } => {
                self.wal_store.append(log.copy());
                self.kv_store.put(key.clone(), copy_bytes(value));
            },
            LogEntry::LINRead { key, opid, .. } => {
                let value = self.get(key.clone());
                self.wal_store.append(
                    LogEntry::LINRead { opid: (opid.0.clone(), opid.1), key: key.clone(), value },
                );
            },
            LogEntry::LINWrite { key, value, .. } => {
                self.kv_store.put(key.clone(), copy_bytes(value));
                self.wal_store.append(log.copy());
            },
            LogEntry::Compact => {
                self.wal_store.append(log.copy());
                self.snapshot();
            },
        }
    }

    /// Applies a suffix read from the consensus layer, if one was read: the
    /// count of suffixes read goes up by one and each decided entry is
    /// applied in order (see [`apply_suffix`]).
    pub fn retrieve_logs_from_omni(&mut self, committed_ents: Option<Vec<SuffixEntry>>)
        requires
            committed_ents is Some ==> old(self)@.idx < u64::MAX,
        ensures
            match committed_ents {
                None => final(self)@ == old(self)@,
                Some(entries) => {
                    &&& final(self)@.replica() == apply_suffix(
                        old(self)@.replica(),
                        suffix_view(entries@),
                    )
                    &&& final(self)@.idx == old(self)@.idx + 1
                    &&& final(self)@.id == old(self)@.id
                    &&& final(self)@.addr == old(self)@.addr
                    &&& final(self)@.timestamp == old(self)@.timestamp
                },
            },
    {
        if let Some(entrys) = committed_ents {
            self.wal_store.advance();
            let ghost start = self@.replica();
            let ghost sv = suffix_view(entrys@);
            let mut i: usize = 0;
            assert(sv.subrange(0, 0) =~= Seq::<Option<LogEntryV>>::empty());
            while i < entrys.len()
                invariant
                    i <= entrys@.len(),
                    sv == suffix_view(entrys@),
                    self@.replica() == apply_suffix(start, sv.subrange(0, i as int)),
                    self@.idx == old(self)@.idx + 1,
                    self@.id == old(self)@.id,
                    self@.addr == old(self)@.addr,
                    self@.timestamp == old(self)@.timestamp,
                decreases entrys.len() - i,
            {
                assert(sv.subrange(0, i + 1).drop_last() =~= sv.subrange(0, i as int));
                match &entrys[i] {
                    SuffixEntry::Decided(log) => {
                        self.apply_decided(log);
                    },
                    SuffixEntry::Other => {},
                }
                i = i + 1;
            }
            assert(sv.subrange(0, sv.len() as int) =~= sv);
        }
    }

    /// Starts a linearizable write of `value` to `key`: advances the
    /// timestamp and gives the entry to propose, whose operation id is the
    /// address of the server and the new timestamp.
    pub fn begin_lin_write(&mut self, key: String, value: Vec<u8>) -> (log: LogEntry)
        requires
            old(self)@.timestamp < u64::MAX,
        ensures
            final(self)@ == (DDBBV { timestamp: (old(self)@.timestamp + 1) as u64, ..old(self)@ }),
            log@ == (LogEntryV::LINWrite {
                opid: (old(self)@.addr, final(self)@.timestamp),
                key: key@,
                value: value@,
            }),
    {
        self.add_ts();
        let ts = self.timestamp;
        let self_addr = self.node_info.addr.clone();
        LogEntry::LINWrite { opid: (self_addr, ts), key, value }
    }

    /// Starts a linearizable read of `key`: advances the timestamp and gives
    /// the entry to propose, whose operation id is the address of the
    /// server and the new timestamp.
    pub fn begin_lin_read(&mut self, key: String) -> (log: LogEntry)
        requires
            old(self)@.timestamp < u64::MAX,
        ensures
            final(self)@ == (DDBBV { timestamp: (old(self)@.timestamp + 1) as u64, ..old(self)@ }),
            log@ == (LogEntryV::LINRead {
                opid: (old(self)@.addr, final(self)@.timestamp),
                key: key@,
                value: None,
            }),
    {
        self.add_ts();
        let ts = self.timestamp;
        let self_addr = self.node_info.addr.clone();
        LogEntry::LINRead { opid: (self_addr, ts), key, value: None }
    }

    /// One round of polling for the linearizable write with timestamp `ts`,
    /// after `times` rounds that found nothing: done once its entry is in
    /// the log; failed once the rounds reach [`LIN_WRITE_TIMES_OUT`].
    pub fn lin_write_step(&self, ts: u64, times: u64) -> (r: LinWriteStep)
        requires
            times < LIN_WRITE_TIMES_OUT,
        ensures
            find_opid(self@.entries, self@.addr, ts) is Some ==> r matches LinWriteStep::Done(Ok(())),
            find_opid(self@.entries, self@.addr, ts) is None ==> if times + 1 >= LIN_WRITE_TIMES_OUT {
                r matches LinWriteStep::Done(Err(e)) && e.message@ == "Lin write failed"@
            } else {
                r == LinWriteStep::Retry((times + 1) as u64)
            },
    {
        if let Some(_) = self.find_log_by_opid(&self.node_info.addr, ts) {
            return LinWriteStep::Done(Ok(()));
        }
        let times = times + 1;
        if times >= LIN_WRITE_TIMES_OUT {
            return LinWriteStep::Done(Err(Error { message: "Lin write failed".to_owned() }));
        }
        LinWriteStep::Retry(times)
    }

    /// One round of polling for the linearizable read with timestamp `ts`,
    /// after `times` rounds that found nothing: done with the value that its
    /// entry recorded once the entry is in the log; failed once the rounds
    /// reach [`LIN_WRITE_TIMES_OUT`].
    pub fn lin_read_step(&self, ts: u64, times: u64) -> (r: LinReadStep)
        requires
            times < LIN_WRITE_TIMES_OUT,
        ensures
            match find_opid(self@.entries, self@.addr, ts) {
                Some(LogEntryV::LINRead { value, .. }) => r matches LinReadStep::Done(Ok(v))
                    && opt_bytes_view(v) == value,
                _ => if times + 1 >= LIN_WRITE_TIMES_OUT {
                    r matches LinReadStep::Done(Err(e)) && e.message@ == "Lin read failed"@
                } else {
                    r == LinReadStep::Retry((times + 1) as u64)
                },
            },
    {
        if let Some(log) = self.find_log_by_opid(&self.node_info.addr, ts) {
            if let LogEntry::LINRead { value, .. } = log {
                return LinReadStep::Done(Ok(value));
            }
        }
        let times = times + 1;
        if times >= LIN_WRITE_TIMES_OUT {
            return LinReadStep::Done(Err(Error { message: "Lin read failed".to_owned() }));
        }
        LinReadStep::Retry(times)
    }
}

} // verus!

verus! {

/// Applying a decided entry keeps the map equal to what the log replays
/// to, where it was so before.
pub proof fn lemma_apply_keeps_replay(s: ReplicaV, e: LogEntryV)
    requires
        s.kv == replay(s.entries),
    ensures
        apply_entry(s, e).kv == replay(apply_entry(s, e).entries),
{
    let t = apply_entry(s, e);
    match e {
        LogEntryV::Compact => {
            lemma_compaction_keeps_replay(seq![e] + s.entries);
            lemma_replay_cons(e, s.entries);
        },
        LogEntryV::LINRead { opid, key, .. } => {
            lemma_replay_cons(
                LogEntryV::LINRead { opid, key, value: lookup(s.kv, key) },
                s.entries,
            );
        },
        _ => {
            lemma_replay_cons(e, s.entries);
        },
    }
}

/// Applying a decided suffix keeps the map equal to what the log replays
/// to, where it was so before.
pub proof fn lemma_apply_suffix_keeps_replay(s: ReplicaV, es: Seq<Option<LogEntryV>>)
    requires
        s.kv == replay(s.entries),
    ensures
        apply_suffix(s, es).kv == replay(apply_suffix(s, es).entries),
    decreases es.len(),
{
    if es.len() > 0 {
        lemma_apply_suffix_keeps_replay(s, es.drop_last());
        if let Some(e) = es.last() {
            lemma_apply_keeps_replay(apply_suffix(s, es.drop_last()), e);
        }
    }
}

/// A decided read records the value that the last decided write of its key
/// wrote, or none where no write of the key is in the log.
pub proof fn lemma_read_records_last_write(
    s: ReplicaV,
    opid: (Seq<char>, u64),
    key: Seq<char>,
    value: Option<Seq<u8>>,
)
    requires
        s.kv == replay(s.entries),
    ensures
        apply_entry(s, LogEntryV::LINRead { opid, key, value }).entries[0] == (LogEntryV::LINRead {
            opid,
            key,
            value: lookup(replay(s.entries), key),
        }),
{
}

/// Applying two suffixes one after the other is applying their
/// concatenation.
proof fn lemma_apply_suffix_append(s: ReplicaV, a: Seq<Option<LogEntryV>>, b: Seq<Option<LogEntryV>>)
    ensures
        apply_suffix(s, a + b) == apply_suffix(apply_suffix(s, a), b),
    decreases b.len(),
{
    if b.len() == 0 {
        assert(a + b =~= a);
    } else {
        assert((a + b).drop_last() =~= a + b.drop_last());
        assert((a + b).last() == b.last());
        lemma_apply_suffix_append(s, a, b.drop_last());
    }
}

/// Whether no decided entry of a suffix writes `key`.
pub open spec fn suffix_avoids(es: Seq<Option<LogEntryV>>, key: Seq<char>) -> bool {
    forall|i: int|
        0 <= i < es.len() ==> match #[trigger] es[i] {
            Some(e) => written_key(e) != Some(key),
            None => true,
        }
}

/// A suffix that writes no `key` leaves the value of `key` as it was.
proof fn lemma_suffix_keeps_key(t: ReplicaV, es: Seq<Option<LogEntryV>>, key: Seq<char>)
    requires
        suffix_avoids(es, key),
    ensures
        lookup(apply_suffix(t, es).kv, key) == lookup(t.kv, key),
    decreases es.len(),
{
    if es.len() > 0 {
        assert(suffix_avoids(es.drop_last(), key)) by {
            assert forall|i: int| 0 <= i < es.drop_last().len() implies match #[trigger] es.drop_last()[i] {
                Some(e) => written_key(e) != Some(key),
                None => true,
            } by {
                assert(es.drop_last()[i] == es[i]);
            }
        }
        lemma_suffix_keeps_key(t, es.drop_last(), key);
        assert(es.last() == es[es.len() - 1]);
    }
}

/// A decided linearizable read of a key, after a decided linearizable write
/// of it and decided entries that write other keys only, records the
/// written value, and its operation id finds that record.
pub proof fn lemma_lin_read_sees_lin_write(
    s: ReplicaV,
    w: (Seq<char>, u64),
    r: (Seq<char>, u64),
    key: Seq<char>,
    value: Seq<u8>,
    between: Seq<Option<LogEntryV>>,
    read_value: Option<Seq<u8>>,
)
    requires
        suffix_avoids(between, key),
    ensures
        ({
            let t = apply_suffix(
                s,
                seq![Some(LogEntryV::LINWrite { opid: w, key, value })] + between + seq![
                    Some(LogEntryV::LINRead { opid: r, key, value: read_value }),
                ],
            );
            &&& t.entries[0] == (LogEntryV::LINRead { opid: r, key, value: Some(value) })
            &&& find_opid(t.entries, r.0, r.1) == Some(t.entries[0])
        }),
{
    let wr = Some(LogEntryV::LINWrite { opid: w, key, value });
    let rd = LogEntryV::LINRead { opid: r, key, value: read_value };
    let first = seq![wr];
    let all = first + between + seq![Some(rd)];
    assert(first.drop_last() =~= Seq::<Option<LogEntryV>>::empty());
    assert(first.last() == wr);
    assert(apply_suffix(s, first.drop_last()) == s);
    let t1 = apply_suffix(s, first);
    assert(t1 == apply_entry(s, wr->0));
    lemma_apply_suffix_append(s, first, between);
    lemma_suffix_keeps_key(t1, between, key);
    let t2 = apply_suffix(s, first + between);
    assert(all.drop_last() =~= first + between);
    assert(all.last() == Some(rd));
    assert(lookup(t2.kv, key) == Some(value));
    lemma_applied_operation_found(t2, rd);
}

/// Whether no decided entry of a suffix is a linearizable read or write
/// with the operation id `(addr, ts)`.
pub open spec fn suffix_lacks_opid(es: Seq<Option<LogEntryV>>, addr: Seq<char>, ts: u64) -> bool {
    forall|i: int|
        0 <= i < es.len() ==> match #[trigger] es[i] {
            Some(LogEntryV::LINRead { opid, .. }) => opid != (addr, ts),
            Some(LogEntryV::LINWrite { opid, .. }) => opid != (addr, ts),
            _ => true,
        }
}

/// Applying an entry of another operation leaves what the operation id
/// `(addr, ts)` finds as it was, or lets it find nothing.
proof fn lemma_find_opid_after_entry(t: ReplicaV, e: LogEntryV, addr: Seq<char>, ts: u64)
    requires
        match e {
            LogEntryV::LINRead { opid, .. } => opid != (addr, ts),
            LogEntryV::LINWrite { opid, .. } => opid != (addr, ts),
            _ => true,
        },
    ensures
        find_opid(apply_entry(t, e).entries, addr, ts) is None || find_opid(
            apply_entry(t, e).entries,
            addr,
            ts,
        ) == find_opid(t.entries, addr, ts),
{
    let n = apply_entry(t, e).entries;
    match e {
        LogEntryV::Compact => {
            let c = seq![e] + t.entries;
            assert(c[0] == e);
            assert(n == compacted_from(c, 0, Set::empty()));
            assert(n[0] == e);
        },
        _ => {
            assert(n.drop_first() =~= t.entries);
        },
    }
}

/// Entries of other operations leave what the operation id `(addr, ts)`
/// finds as it was, or let it find nothing.
proof fn lemma_find_opid_after_suffix(
    t: ReplicaV,
    es: Seq<Option<LogEntryV>>,
    addr: Seq<char>,
    ts: u64,
)
    requires
        suffix_lacks_opid(es, addr, ts),
    ensures
        find_opid(apply_suffix(t, es).entries, addr, ts) is None || find_opid(
            apply_suffix(t, es).entries,
            addr,
            ts,
        ) == find_opid(t.entries, addr, ts),
    decreases es.len(),
{
    if es.len() > 0 {
        let d = es.drop_last();
        assert(suffix_lacks_opid(d, addr, ts)) by {
            assert forall|i: int| 0 <= i < d.len() implies match #[trigger] d[i] {
                Some(LogEntryV::LINRead { opid, .. }) => opid != (addr, ts),
                Some(LogEntryV::LINWrite { opid, .. }) => opid != (addr, ts),
                _ => true,
            } by {
                assert(d[i] == es[i]);
            }
        }
        lemma_find_opid_after_suffix(t, d, addr, ts);
        assert(es.last() == es[es.len() - 1]);
        if let Some(e) = es.last() {
            lemma_find_opid_after_entry(apply_suffix(t, d), e, addr, ts);
        }
    }
}

/// A linearizable read of a key, decided after a decided linearizable
/// write of it with only entries that write other keys between them, never
/// reports another value: however many decided entries follow, as long as
/// none carries the read's operation id, that id finds the read with the
/// written value, or nothing.
pub proof fn lemma_lin_read_never_sees_other_value(
    s: ReplicaV,
    w: (Seq<char>, u64),
    r: (Seq<char>, u64),
    key: Seq<char>,
    value: Seq<u8>,
    between: Seq<Option<LogEntryV>>,
    read_value: Option<Seq<u8>>,
    after: Seq<Option<LogEntryV>>,
)
    requires
        suffix_avoids(between, key),
        suffix_lacks_opid(after, r.0, r.1),
    ensures
        ({
            let t = apply_suffix(
                s,
                seq![Some(LogEntryV::LINWrite { opid: w, key, value })] + between + seq![
                    Some(LogEntryV::LINRead { opid: r, key, value: read_value }),
                ] + after,
            );
            find_opid(t.entries, r.0, r.1) is None || find_opid(t.entries, r.0, r.1) == Some(
                LogEntryV::LINRead { opid: r, key, value: Some(value) },
            )
        }),
{
    let upto = seq![Some(LogEntryV::LINWrite { opid: w, key, value })] + between + seq![
        Some(LogEntryV::LINRead { opid: r, key, value: read_value }),
    ];
    lemma_lin_read_sees_lin_write(s, w, r, key, value, between, read_value);
    lemma_apply_suffix_append(s, upto, after);
    lemma_find_opid_after_suffix(apply_suffix(s, upto), after, r.0, r.1);
}

/// Right after a linearizable read or write is applied, its operation id
/// finds the entry that was logged for it.
pub proof fn lemma_applied_operation_found(s: ReplicaV, e: LogEntryV)
    requires
        e is LINRead || e is LINWrite,
    ensures
        ({
            let t = apply_entry(s, e);
            let opid = if e is LINRead {
                e->LINRead_opid
            } else {
                e->LINWrite_opid
            };
            find_opid(t.entries, opid.0, opid.1) == Some(t.entries[0])
        }),
{
}

} // verus!

verus! {

/// Whether a log holds no `Compact` and writes each key at most once, and
/// no key of `seen`.
pub open spec fn fresh_writes(x: Seq<LogEntryV>, seen: Set<Seq<char>>) -> bool
    decreases x.len(),
{
    if x.len() == 0 {
        true
    } else {
        match x[0] {
            LogEntryV::Compact => false,
            LogEntryV::LINRead { .. } => fresh_writes(x.drop_first(), seen),
            _ => {
                let k = written_key(x[0])->0;
                !seen.contains(k) && fresh_writes(x.drop_first(), seen.insert(k))
            },
        }
    }
}

proof fn lemma_compacted_cons(e: LogEntryV, t: Seq<LogEntryV>, phase: nat, seen: Set<Seq<char>>)
    ensures
        compacted_from(seq![e] + t, phase, seen) == match e {
            LogEntryV::LINRead { .. } => if phase < 2 {
                seq![e] + compacted_from(t, phase, seen)
            } else {
                compacted_from(t, phase, seen)
            },
            LogEntryV::Compact => if phase == 0 {
                seq![e] + compacted_from(t, 1, seen)
            } else {
                compacted_from(t, 2, seen)
            },
            _ => {
                let key = written_key(e)->0;
                if phase == 0 || !seen.contains(key) {
                    seq![e] + compacted_from(t, phase, seen.insert(key))
                } else {
                    compacted_from(t, phase, seen.insert(key))
                }
            },
        },
{
    assert((seq![e] + t).drop_first() =~= t);
    assert((seq![e] + t)[0] == e);
}

proof fn lemma_fresh_cons(e: LogEntryV, t: Seq<LogEntryV>, seen: Set<Seq<char>>)
    ensures
        fresh_writes(seq![e] + t, seen) == match e {
            LogEntryV::Compact => false,
            LogEntryV::LINRead { .. } => fresh_writes(t, seen),
            _ => {
                let k = written_key(e)->0;
                !seen.contains(k) && fresh_writes(t, seen.insert(k))
            },
        },
{
    assert((seq![e] + t).drop_first() =~= t);
    assert((seq![e] + t)[0] == e);
}

/// After the first `Compact`, compaction leaves no `Compact` and writes of
/// fresh keys only.
proof fn lemma_compacted_later_fresh(es: Seq<LogEntryV>, phase: nat, seen: Set<Seq<char>>)
    requires
        phase >= 1,
    ensures
        fresh_writes(compacted_from(es, phase, seen), seen),
    decreases es.len(),
{
    if es.len() > 0 {
        let e = es[0];
        let rest = es.drop_first();
        match e {
            LogEntryV::LINRead { .. } => {
                lemma_compacted_later_fresh(rest, phase, seen);
                if phase < 2 {
                    lemma_fresh_cons(e, compacted_from(rest, phase, seen), seen);
                }
            },
            LogEntryV::Compact => {
                lemma_compacted_later_fresh(rest, 2, seen);
            },
            _ => {
                let k = written_key(e)->0;
                if !seen.contains(k) {
                    lemma_compacted_later_fresh(rest, phase, seen.insert(k));
                    lemma_fresh_cons(e, compacted_from(rest, phase, seen.insert(k)), seen);
                } else {
                    assert(seen.insert(k) =~= seen);
                    lemma_compacted_later_fresh(rest, phase, seen);
                }
            },
        }
    }
}

/// Compaction between the first and the second `Compact` keeps a log of
/// fresh writes as it is.
proof fn lemma_compacted_fresh_unchanged(x: Seq<LogEntryV>, seen: Set<Seq<char>>)
    requires
        fresh_writes(x, seen),
    ensures
        compacted_from(x, 1, seen) == x,
    decreases x.len(),
{
    if x.len() > 0 {
        let e = x[0];
        let rest = x.drop_first();
        assert(x == seq![e] + rest);
        match e {
            LogEntryV::LINRead { .. } => {
                lemma_compacted_fresh_unchanged(rest, seen);
            },
            LogEntryV::Compact => {},
            _ => {
                lemma_compacted_fresh_unchanged(rest, seen.insert(written_key(e)->0));
            },
        }
    } else {
        assert(compacted_from(x, 1, seen) =~= x);
    }
}

proof fn lemma_compacted_idempotent_from(es: Seq<LogEntryV>, seen: Set<Seq<char>>)
    ensures
        compacted_from(compacted_from(es, 0, seen), 0, seen) == compacted_from(es, 0, seen),
    decreases es.len(),
{
    if es.len() > 0 {
        let e = es[0];
        let rest = es.drop_first();
        match e {
            LogEntryV::LINRead { .. } => {
                lemma_compacted_idempotent_from(rest, seen);
                lemma_compacted_cons(e, compacted_from(rest, 0, seen), 0, seen);
            },
            LogEntryV::Compact => {
                let t = compacted_from(rest, 1, seen);
                lemma_compacted_cons(e, t, 0, seen);
                lemma_compacted_later_fresh(rest, 1, seen);
                lemma_compacted_fresh_unchanged(t, seen);
            },
            _ => {
                let k = written_key(e)->0;
                lemma_compacted_idempotent_from(rest, seen.insert(k));
                lemma_compacted_cons(e, compacted_from(rest, 0, seen.insert(k)), 0, seen);
            },
        }
    } else {
        assert(compacted_from(es, 0, seen) =~= es);
    }
}

/// Compacting a compacted log changes nothing.
pub proof fn lemma_compaction_idempotent(es: Seq<LogEntryV>)
    ensures
        compacted(compacted(es)) == compacted(es),
{
    lemma_compacted_idempotent_from(es, Set::empty());
}

} // verus!

verus! {

// ---------------------------------------------------------------- laws of compaction

/// The number of `Compact` entries of a log.
pub open spec fn compacts_in(es: Seq<LogEntryV>) -> nat
    decreases es.len(),
{
    if es.len() == 0 {
        0
    } else {
        (if es[0] is Compact {
            1nat
        } else {
            0nat
        }) + compacts_in(es.drop_first())
    }
}

/// The keys that the entries of a log write.
pub open spec fn keys_written(es: Seq<LogEntryV>) -> Set<Seq<char>>
    decreases es.len(),
{
    if es.len() == 0 {
        Set::empty()
    } else {
        match written_key(es.last()) {
            Some(k) => keys_written(es.drop_last()).insert(k),
            None => keys_written(es.drop_last()),
        }
    }
}

/// Whether compaction keeps the `i`-th entry of a log read newest first:
/// every entry up to the first `Compact` is kept; after it, a write is kept
/// only if no newer write has its key, a read only before the second
/// `Compact`, and no `Compact`.
pub open spec fn kept_at(es: Seq<LogEntryV>, i: int) -> bool {
    let before = es.take(i);
    ||| compacts_in(before) == 0
    ||| (written_key(es[i]) matches Some(k) && !keys_written(before).contains(k))
    ||| (es[i] is LINRead && compacts_in(before) < 2)
}

/// The entries from the `i`-th on that compaction keeps, in order.
pub open spec fn kept_from(es: Seq<LogEntryV>, i: int) -> Seq<LogEntryV>
    decreases es.len() - i,
{
    if i < 0 || i >= es.len() {
        Seq::empty()
    } else {
        (if kept_at(es, i) {
            seq![es[i]]
        } else {
            Seq::empty()
        }) + kept_from(es, i + 1)
    }
}

proof fn lemma_compacts_push(s: Seq<LogEntryV>, e: LogEntryV)
    ensures
        compacts_in(s.push(e)) == compacts_in(s) + (if e is Compact {
            1nat
        } else {
            0nat
        }),
    decreases s.len(),
{
    if s.len() > 0 {
        assert(s.push(e).drop_first() =~= s.drop_first().push(e));
        assert(s.push(e)[0] == s[0]);
        lemma_compacts_push(s.drop_first(), e);
    } else {
        assert(s.push(e).drop_first() =~= Seq::<LogEntryV>::empty());
        assert(s.push(e)[0] == e);
        assert(compacts_in(Seq::<LogEntryV>::empty()) == 0);
    }
}

proof fn lemma_compacts_cons(e: LogEntryV, t: Seq<LogEntryV>)
    ensures
        compacts_in(seq![e] + t) == (if e is Compact {
            1nat
        } else {
            0nat
        }) + compacts_in(t),
{
    assert((seq![e] + t).drop_first() =~= t);
}

proof fn lemma_kept_from(es: Seq<LogEntryV>, i: int)
    requires
        0 <= i <= es.len(),
    ensures
        compacted_from(
            es.skip(i),
            if compacts_in(es.take(i)) >= 2 {
                2
            } else {
                compacts_in(es.take(i))
            },
            keys_written(es.take(i)),
        ) == kept_from(es, i),
    decreases es.len() - i,
{
    if i == es.len() {
        assert(es.skip(i) =~= Seq::<LogEntryV>::empty());
    } else {
        let t = es.take(i);
        assert(es.take(i + 1) =~= t.push(es[i]));
        assert(es.take(i + 1).drop_last() =~= t);
        assert(es.skip(i)[0] == es[i]);
        assert(es.skip(i).drop_first() =~= es.skip(i + 1));
        lemma_compacts_push(t, es[i]);
        lemma_kept_from(es, i + 1);
    }
}

/// Compaction keeps exactly the entries that [`kept_at`] describes, in
/// order.
pub proof fn lemma_compaction_keeps(es: Seq<LogEntryV>)
    ensures
        compacted(es) == kept_from(es, 0),
{
    lemma_kept_from(es, 0);
    assert(es.skip(0) =~= es);
    assert(es.take(0) =~= Seq::<LogEntryV>::empty());
}

/// A log up to and including its first `Compact`; all of it where it has
/// none.
pub open spec fn through_first_compact(es: Seq<LogEntryV>) -> Seq<LogEntryV>
    decreases es.len(),
{
    if es.len() == 0 {
        Seq::empty()
    } else if es[0] is Compact {
        seq![es[0]]
    } else {
        seq![es[0]] + through_first_compact(es.drop_first())
    }
}

proof fn lemma_fresh_no_compact(x: Seq<LogEntryV>, seen: Set<Seq<char>>)
    requires
        fresh_writes(x, seen),
    ensures
        compacts_in(x) == 0,
    decreases x.len(),
{
    if x.len() > 0 {
        match x[0] {
            LogEntryV::LINRead { .. } => lemma_fresh_no_compact(x.drop_first(), seen),
            LogEntryV::Compact => {},
            _ => lemma_fresh_no_compact(x.drop_first(), seen.insert(written_key(x[0])->0)),
        }
    }
}

proof fn lemma_through_first_compact(es: Seq<LogEntryV>, seen: Set<Seq<char>>)
    ensures
        through_first_compact(es).len() <= es.len(),
        es.take(through_first_compact(es).len() as int) == through_first_compact(es),
        compacted_from(es, 0, seen).len() >= through_first_compact(es).len(),
        compacted_from(es, 0, seen).take(through_first_compact(es).len() as int)
            == through_first_compact(es),
        compacts_in(compacted_from(es, 0, seen)) == compacts_in(through_first_compact(es)),
        compacts_in(through_first_compact(es)) == (if compacts_in(es) == 0 {
            0nat
        } else {
            1nat
        }),
        compacts_in(es) == 0 ==> through_first_compact(es) == es && compacted_from(es, 0, seen)
            == es,
    decreases es.len(),
{
    if es.len() == 0 {
        assert(es.take(0) =~= es);
        assert(compacted_from(es, 0, seen).take(0) =~= Seq::<LogEntryV>::empty());
    } else {
        let e = es[0];
        let rest = es.drop_first();
        assert(es =~= seq![e] + rest);
        if e is Compact {
            let tail = compacted_from(rest, 1, seen);
            lemma_compacted_later_fresh(rest, 1, seen);
            lemma_fresh_no_compact(tail, seen);
            lemma_compacts_cons(e, tail);
            lemma_compacts_cons(e, Seq::empty());
            assert(compacts_in(Seq::<LogEntryV>::empty()) == 0);
            lemma_compacted_cons(e, rest, 0, seen);
            assert((seq![e] + tail).take(1) =~= seq![e]);
            assert(es.take(1) =~= seq![e]);
        } else {
            let s2 = if e is LINRead {
                seen
            } else {
                seen.insert(written_key(e)->0)
            };
            lemma_through_first_compact(rest, s2);
            lemma_compacted_cons(e, rest, 0, seen);
            let out = compacted_from(rest, 0, s2);
            let th = through_first_compact(rest);
            assert(compacted_from(es, 0, seen) == seq![e] + out);
            assert(through_first_compact(es) == seq![e] + th);
            lemma_compacts_cons(e, out);
            lemma_compacts_cons(e, th);
            lemma_compacts_cons(e, rest);
            assert((seq![e] + out).take(th.len() + 1int) =~= seq![e] + out.take(th.len() as int));
            assert(es.take(th.len() + 1int) =~= seq![e] + rest.take(th.len() as int));
        }
    }
}

/// Compaction leaves at most one `Compact`, none where the log had none,
/// and leaves the log as it was up to and including its first `Compact`
/// (the whole log where it has none).
pub proof fn lemma_compaction_keeps_head(es: Seq<LogEntryV>)
    ensures
        compacts_in(compacted(es)) == (if compacts_in(es) == 0 {
            0nat
        } else {
            1nat
        }),
        compacted(es).take(through_first_compact(es).len() as int) == through_first_compact(es),
        es.take(through_first_compact(es).len() as int) == through_first_compact(es),
        compacts_in(es) == 0 ==> compacted(es) == es,
{
    lemma_through_first_compact(es, Set::empty());
}

/// The newest write of `key` in a log read newest first.
pub open spec fn newest_write(es: Seq<LogEntryV>, key: Seq<char>) -> Option<LogEntryV>
    decreases es.len(),
{
    if es.len() == 0 {
        None
    } else if written_key(es[0]) == Some(key) {
        Some(es[0])
    } else {
        newest_write(es.drop_first(), key)
    }
}

proof fn lemma_newest_write_cons(e: LogEntryV, t: Seq<LogEntryV>, key: Seq<char>)
    ensures
        newest_write(seq![e] + t, key) == if written_key(e) == Some(key) {
            Some(e)
        } else {
            newest_write(t, key)
        },
{
    assert((seq![e] + t).drop_first() =~= t);
}

proof fn lemma_compacted_from_newest(es: Seq<LogEntryV>, phase: nat, seen: Set<Seq<char>>, k: Seq<char>)
    requires
        !seen.contains(k),
    ensures
        newest_write(compacted_from(es, phase, seen), k) == newest_write(es, k),
    decreases es.len(),
{
    if es.len() > 0 {
        let e = es[0];
        let rest = es.drop_first();
        match e {
            LogEntryV::LINRead { .. } => {
                lemma_compacted_from_newest(rest, phase, seen, k);
                lemma_newest_write_cons(e, compacted_from(rest, phase, seen), k);
            },
            LogEntryV::Compact => {
                let p2: nat = if phase == 0 { 1 } else { 2 };
                lemma_compacted_from_newest(rest, p2, seen, k);
                lemma_newest_write_cons(e, compacted_from(rest, p2, seen), k);
            },
            _ => {
                let key = written_key(e)->0;
                if key != k {
                    lemma_compacted_from_newest(rest, phase, seen.insert(key), k);
                }
                lemma_newest_write_cons(e, compacted_from(rest, phase, seen.insert(key)), k);
            },
        }
    }
}

/// Compaction keeps the newest write entry of every key.
pub proof fn lemma_compaction_keeps_newest_writes(es: Seq<LogEntryV>, key: Seq<char>)
    ensures
        newest_write(compacted(es), key) == newest_write(es, key),
{
    lemma_compacted_from_newest(es, 0, Set::empty(), key);
}

} // verus!

verus! {

/// The operation id of a linearizable read or write.
pub open spec fn lin_opid(e: LogEntryV) -> Option<(Seq<char>, u64)> {
    match e {
        LogEntryV::LINRead { opid, .. } => Some(opid),
        LogEntryV::LINWrite { opid, .. } => Some(opid),
        _ => None,
    }
}

/// The search for an operation id finds the newest entry that carries it,
/// where every newer entry is a linearizable read or write of another
/// operation; and finds nothing where there is no such entry.
pub proof fn lemma_find_opid_exact(es: Seq<LogEntryV>, addr: Seq<char>, ts: u64)
    ensures
        find_opid(es, addr, ts) matches Some(e) ==> exists|i: int|
            0 <= i < es.len() && es[i] == e && lin_opid(e) == Some((addr, ts)) && forall|j: int|
                0 <= j < i ==> (#[trigger] lin_opid(es[j])) is Some && lin_opid(es[j]) != Some(
                    (addr, ts),
                ),
        find_opid(es, addr, ts) is None ==> forall|i: int|
            0 <= i < es.len() && lin_opid(#[trigger] es[i]) == Some((addr, ts)) ==> exists|j: int|
                0 <= j < i && lin_opid(es[j]) is None,
    decreases es.len(),
{
    if es.len() > 0 {
        let rest = es.drop_first();
        lemma_find_opid_exact(rest, addr, ts);
        if lin_opid(es[0]) is Some && lin_opid(es[0]) != Some((addr, ts)) {
            assert(find_opid(es, addr, ts) == find_opid(rest, addr, ts));
            if find_opid(rest, addr, ts) is Some {
                let e = find_opid(rest, addr, ts)->0;
                let i = choose|i: int|
                    0 <= i < rest.len() && rest[i] == e && lin_opid(e) == Some((addr, ts)) && forall|j: int|
                        0 <= j < i ==> (#[trigger] lin_opid(rest[j])) is Some && lin_opid(rest[j]) != Some(
                            (addr, ts),
                        );
                assert(es[i + 1] == e);
                assert forall|j: int| 0 <= j < i + 1 implies (#[trigger] lin_opid(es[j])) is Some
                    && lin_opid(es[j]) != Some((addr, ts)) by {
                    if j > 0 {
                        assert(es[j] == rest[j - 1]);
                        assert(lin_opid(rest[j - 1]) is Some);
                    }
                }
            } else {
                assert forall|i: int|
                    0 <= i < es.len() && lin_opid(#[trigger] es[i]) == Some((addr, ts)) implies exists|j: int|
                        0 <= j < i && lin_opid(es[j]) is None by {
                    assert(i > 0);
                    assert(es[i] == rest[i - 1]);
                    assert(lin_opid(rest[i - 1]) == Some((addr, ts)));
                    let j = choose|j: int| 0 <= j < i - 1 && lin_opid(rest[j]) is None;
                    assert(es[j + 1] == rest[j]);
                }
            }
        } else if lin_opid(es[0]) == Some((addr, ts)) {
            assert(find_opid(es, addr, ts) == Some(es[0]));
        } else {
            assert(find_opid(es, addr, ts) is None);
            assert forall|i: int|
                0 <= i < es.len() && lin_opid(#[trigger] es[i]) == Some((addr, ts)) implies exists|j: int|
                    0 <= j < i && lin_opid(es[j]) is None by {
                assert(i > 0);
            }
        }
    }
}

} // verus!

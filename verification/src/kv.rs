//! The log-structured engine.
//!
//! `KvStore` holds the image of every generation of the log, an index from
//! each live key to the place of its record, and a count of the bytes that
//! have turned stale. The store itself touches no file: every change to the
//! log is also queued as an effect, and whoever keeps the generations on
//! disk takes the queue and mirrors it.

use vstd::prelude::*;
use vstd::hash_map::StringHashMap;
use vstd::slice::{slice_subrange, slice_to_vec};
use vstd::string::*;
use crate::command::{lemma_parse_command_sound, parse_command, Command, CommandView};
use crate::effects::{
    apply_effect, apply_effects, effect_views, lemma_effects_concat, lemma_effects_push,
    lemma_removals, removals, LogEffect, LogEffectView,
};
use crate::directory::{arrange, arranged, distinct_ids, DirectoryImage};
use crate::engine::{text_of, value_of};
use crate::error::KvsError;
use crate::log::{
    appended_span, apply, ascending, blank, fits, journal,
    lemma_generation_fits, lemma_journal_append, lemma_journal_open, lemma_journal_readable,
    lemma_live_record, lemma_records_append, lemma_replay_concat, lemma_replay_domains,
    lemma_replay_push, locate, locate_one, readable, records, records_from, replay, replay_onto,
    restates, saturate, views, Generation, GenerationView, Located, LogPointer, Replayed, Span,
};

verus! {

/// The number of stale bytes above which the store compacts its log.
pub const COMPACTION_THRESHOLD: u64 = 1024 * 1024;

/// The size of the active generation above which the store seals it.
pub const ROLLOVER_THRESHOLD: u64 = 4 * 1024 * 1024;

/// The identifier of the generation that a store without files starts with.
pub const FIRST_GENERATION: u64 = 1;

/// The two sizes that decide when the store compacts and when it seals the
/// active generation.
#[derive(Clone, Copy, Debug, PartialEq, Eq, Structural)]
pub struct Limits {
    /// The number of stale bytes above which the store compacts its log.
    pub compaction: u64,
    /// The size of the active generation above which the store seals it.
    pub rollover: u64,
}

impl Default for Limits {
    /// The usual limits.
    fn default() -> (limits: Limits)
        ensures
            limits == (Limits { compaction: COMPACTION_THRESHOLD, rollover: ROLLOVER_THRESHOLD }),
    {
        Limits { compaction: COMPACTION_THRESHOLD, rollover: ROLLOVER_THRESHOLD }
    }
}

/// The generations that a store starts with when it is opened on `found`:
/// those found, or one fresh generation where none was found.
pub open spec fn initial_generations(found: Seq<GenerationView>) -> Seq<GenerationView> {
    if found.len() == 0 {
        seq![GenerationView { id: FIRST_GENERATION, bytes: Seq::empty() }]
    } else {
        found
    }
}

/// The effects that opening a store on `found` queues: the creation of the
/// first generation where none was found.
pub open spec fn initial_effects(found: Seq<GenerationView>) -> Seq<LogEffectView> {
    if found.len() == 0 {
        seq![LogEffectView::Create { gen: FIRST_GENERATION }]
    } else {
        Seq::empty()
    }
}

/// The generations after `bytes` is appended to the last of them.
pub open spec fn grown(gens: Seq<GenerationView>, bytes: Seq<u8>) -> Seq<GenerationView> {
    gens.update(
        gens.len() - 1,
        GenerationView { id: gens.last().id, bytes: gens.last().bytes + bytes },
    )
}

/// The place and the command of the record that comes into being when the
/// record of `c` is appended to the last of `gens`.
pub open spec fn written(gens: Seq<GenerationView>, c: CommandView) -> Located {
    locate_one(gens.last().id, appended_span(gens.last().bytes, c))
}

/// Whether a log whose active generation is `active` and which holds `stale`
/// stale bytes is to be compacted: the stale bytes exceed the limit, and two
/// more identifiers are to be had.
pub open spec fn compaction_due(limits: Limits, stale: u64, active: u64) -> bool {
    stale > limits.compaction && active <= u64::MAX - 2
}

/// Whether an active generation `active` of `size` bytes is to be sealed: its
/// size exceeds the limit, and one more identifier is to be had.
pub open spec fn rollover_due(limits: Limits, size: nat, active: u64) -> bool {
    size > limits.rollover && active < u64::MAX
}

/// Whether `after` is a compaction of `before`. It has two generations: one
/// that holds one `Put` record for each live key, and a new active generation
/// without bytes. Replaying it yields the contents of `before` and no stale
/// byte; each key's record is as long as it was, and each record restates a
/// pair of `before`.
pub open spec fn compacted(before: Seq<GenerationView>, after: Seq<GenerationView>) -> bool {
    let target = (before.last().id + 1) as u64;
    let was = replay(journal(before).unwrap());
    &&& after.len() == 2
    &&& after[0].id == target
    &&& after[1] == GenerationView { id: (target + 1) as u64, bytes: Seq::empty() }
    &&& journal(after) is Some
    &&& {
        let now = replay(journal(after).unwrap());
        &&& now.contents == was.contents
        &&& now.stale == 0
        &&& now.index.dom() == was.index.dom()
        &&& forall|k: Seq<char>| #[trigger]
            now.index.contains_key(k) ==> now.index[k].gen == target && now.index[k].len
                == was.index[k].len
        &&& forall|m: int|
            0 <= m < journal(after).unwrap().len() ==> restates(
                #[trigger] journal(after).unwrap()[m],
                was.contents,
            )
    }
}

/// The effects that lead from a log `before` to its compaction `after`: the
/// new generation is created and filled, the new active generation is
/// created, and the generations of `before` are deleted, lowest first.
pub open spec fn compaction_effects(
    before: Seq<GenerationView>,
    after: Seq<GenerationView>,
) -> Seq<LogEffectView> {
    seq![
        LogEffectView::Create { gen: after[0].id },
        LogEffectView::Append { gen: after[0].id, bytes: after[0].bytes },
        LogEffectView::Create { gen: after[1].id },
    ] + removals(before)
}

/// Whether `after` is what a log `before` with `stale` stale bytes becomes
/// once a write is through: its compaction where that is due, else with a new
/// active generation where sealing is due, else unchanged.
pub open spec fn settled(
    limits: Limits,
    stale: u64,
    before: Seq<GenerationView>,
    after: Seq<GenerationView>,
) -> bool {
    if compaction_due(limits, stale, before.last().id) {
        compacted(before, after)
    } else if rollover_due(limits, before.last().bytes.len(), before.last().id) {
        after == before.push(
            GenerationView { id: (before.last().id + 1) as u64, bytes: Seq::empty() },
        )
    } else {
        after == before
    }
}

/// The effects that lead from `before` to `after` where `settled` holds of
/// them.
pub open spec fn settle_effects(
    limits: Limits,
    stale: u64,
    before: Seq<GenerationView>,
    after: Seq<GenerationView>,
) -> Seq<LogEffectView> {
    if compaction_due(limits, stale, before.last().id) {
        compaction_effects(before, after)
    } else if rollover_due(limits, before.last().bytes.len(), before.last().id) {
        seq![LogEffectView::Create { gen: (before.last().id + 1) as u64 }]
    } else {
        Seq::empty()
    }
}

/// What opening a store on `dir` with `limits` gives. It succeeds exactly
/// when the path is a directory, no two generations share an identifier and
/// every generation is a run of well-formed records. The store then starts
/// from the generations in ascending order.
pub open spec fn opened(dir: DirectoryImage, limits: Limits, r: Result<KvStore, KvsError>) -> bool {
    let found = views(dir.generations@);
    match r {
        Ok(store) => {
            &&& dir.is_directory
            &&& distinct_ids(found)
            &&& readable(found)
            &&& store.wf()
            &&& arranged(found, store.persisted())
            &&& store.generations() == initial_generations(store.persisted())
            &&& store.pending() == initial_effects(store.persisted())
            &&& store.limits() == limits
        },
        Err(KvsError::BadPathError(path)) => !dir.is_directory && path@ == dir.path@,
        Err(KvsError::InternalError(detail)) => {
            &&& dir.is_directory
            &&& !distinct_ids(found)
            &&& detail@ == "two generations share an identifier"@
        },
        Err(KvsError::SerdeError(detail)) => {
            &&& dir.is_directory
            &&& distinct_ids(found)
            &&& !readable(found)
            &&& detail@ == "a record of the log cannot be read"@
        },
        Err(_) => false,
    }
}

/// The identifiers of a run of generations.
pub open spec fn ids_of(gens: Seq<GenerationView>) -> Seq<u64> {
    Seq::new(gens.len(), |i: int| gens[i].id)
}

/// Whether some entry of `keys` is the key `key`.
pub open spec fn listed(keys: Seq<String>, key: Seq<char>) -> bool {
    exists|i: int| 0 <= i < keys.len() && (#[trigger] keys[i])@ == key
}

/// Whether every key of `dom` is an entry of `keys`.
pub open spec fn covers(keys: Seq<String>, dom: Set<Seq<char>>) -> bool {
    forall|k: Seq<char>| dom.contains(k) ==> listed(keys, k)
}

/// Stores key-value pairs in an append-only log of generations.
pub struct KvStore {
    sealed: Vec<Generation>,
    active: Generation,
    index: StringHashMap<LogPointer>,
    keys: Vec<String>,
    stale: u64,
    limits: Limits,
    pending: Vec<LogEffect>,
    persisted: Ghost<Seq<GenerationView>>,
}

impl View for KvStore {
    type V = Map<Seq<char>, Seq<char>>;

    /// The key-value pairs that the store holds: what replaying its log
    /// yields.
    open spec fn view(&self) -> Map<Seq<char>, Seq<char>> {
        replay(journal(self.generations()).unwrap()).contents
    }
}

impl KvStore {
    /// The generations of the log, lowest identifier first; the last one is
    /// the active generation.
    pub closed spec fn generations(&self) -> Seq<GenerationView> {
        views(self.sealed@).push(self.active@)
    }

    /// For each live key, the place of its record.
    pub closed spec fn index(&self) -> Map<Seq<char>, LogPointer> {
        self.index@
    }

    /// The count of stale bytes, held saturated.
    pub closed spec fn stale_bytes(&self) -> u64 {
        self.stale
    }

    /// The sizes that decide when the store compacts and seals.
    pub closed spec fn limits(&self) -> Limits {
        self.limits
    }

    /// The effects that are queued.
    pub closed spec fn pending(&self) -> Seq<LogEffectView> {
        effect_views(self.pending@)
    }

    /// The generations as they stood when the queue of effects was last
    /// taken.
    pub closed spec fn persisted(&self) -> Seq<GenerationView> {
        self.persisted@
    }

    /// Whether the list of keys that compaction walks names every live key.
    pub closed spec fn keys_cover(&self) -> bool {
        covers(self.keys@, self.index@.dom())
    }

    /// The identifier of the active generation.
    pub open spec fn active_id(&self) -> u64 {
        self.generations().last().id
    }

    /// The invariant of the store. The index and the count of stale bytes are
    /// what replaying the log yields, and the queued effects lead from the
    /// generations last handed out to the present ones.
    pub open spec fn wf(&self) -> bool {
        let gens = self.generations();
        &&& gens.len() > 0
        &&& ascending(gens)
        &&& fits(gens)
        &&& journal(gens) is Some
        &&& self.index() == replay(journal(gens).unwrap()).index
        &&& self.stale_bytes() == saturate(replay(journal(gens).unwrap()).stale)
        &&& apply_effects(self.persisted(), self.pending()) == gens
        &&& self.keys_cover()
    }

    /// Whether `after` is the store that `self` becomes when the record of
    /// `c` is written: the record is appended to the active generation, and
    /// the log is then settled.
    pub open spec fn wrote(&self, after: &KvStore, c: CommandView) -> bool {
        let mid = grown(self.generations(), c.bytes());
        let recs = journal(self.generations()).unwrap().push(written(self.generations(), c));
        let stale = saturate(replay(recs).stale);
        &&& journal(mid) == Some(recs)
        &&& settled(self.limits(), stale, mid, after.generations())
        &&& after.pending() == self.pending().push(
            LogEffectView::Append { gen: self.active_id(), bytes: c.bytes() },
        ) + settle_effects(self.limits(), stale, mid, after.generations())
        &&& after.persisted() == self.persisted()
        &&& after.limits() == self.limits()
    }

    /// The record that the index holds for a live key lies, in the generation
    /// that its place names, at the offset that its place names, and is the
    /// `Put` of the key's present value.
    proof fn lemma_record_in(&self, key: Seq<char>, gen: Generation)
        requires
            self.wf(),
            self.index().contains_key(key),
            gen.id == self.index()[key].gen,
            exists|i: int|
                0 <= i < self.generations().len() && #[trigger] self.generations()[i] == gen@,
        ensures
            self@.contains_key(key),
            self.index()[key].pos + self.index()[key].len <= gen.data@.len(),
            self.index()[key].len >= 9,
            parse_command(gen.data@, self.index()[key].pos as int) == Some(
                (
                    CommandView::Put { key, value: self@[key] },
                    self.index()[key].pos + self.index()[key].len,
                ),
            ),
    {
        let gens = self.generations();
        let st = replay(journal(gens).unwrap());
        lemma_live_record(gens, key);
        let i = choose|i: int|
            0 <= i < gens.len() && (#[trigger] gens[i]).id == st.index[key].gen && parse_command(
                gens[i].bytes,
                st.index[key].pos as int,
            ) == Some(
                (
                    CommandView::Put { key, value: st.contents[key] },
                    st.index[key].pos + st.index[key].len,
                ),
            );
        let j = choose|j: int| 0 <= j < gens.len() && #[trigger] gens[j] == gen@;
        if i < j {
            assert(gens[i].id < gens[j].id);
        } else if j < i {
            assert(gens[j].id < gens[i].id);
        }
        lemma_parse_command_sound(gen.data@, self.index()[key].pos as int);
    }
}

/// Adds `more` to a count of stale bytes that is held saturated.
fn add_stale(count: u64, more: u64) -> (sum: u64)
    ensures
        sum == saturate(count as nat + more as nat),
{
    if more > u64::MAX - count {
        u64::MAX
    } else {
        count + more
    }
}

/// Brings the index, the list of keys and the count of stale bytes from the
/// state `st` to the state after the record `cmd`, which lies at `at`.
fn track(
    index: &mut StringHashMap<LogPointer>,
    keys: &mut Vec<String>,
    stale: &mut u64,
    cmd: Command,
    at: LogPointer,
    Ghost(st): Ghost<Replayed>,
)
    requires
        old(index)@ == st.index,
        *old(stale) == saturate(st.stale),
        covers(old(keys)@, st.index.dom()),
    ensures
        final(index)@ == apply(st, Located { at, cmd: cmd@ }).index,
        *final(stale) == saturate(apply(st, Located { at, cmd: cmd@ }).stale),
        covers(final(keys)@, final(index)@.dom()),
{
    match cmd {
        Command::Put { key, value } => {
            match index.get(key.as_str()) {
                Some(previous) => {
                    *stale = add_stale(*stale, previous.len);
                },
                None => {
                    keys.push(key.clone());
                    assert(listed(keys@, key@)) by {
                        assert(keys@[keys@.len() - 1]@ == key@);
                    }
                },
            }
            assert forall|k: Seq<char>| st.index.insert(key@, at).dom().contains(k) implies listed(
                keys@,
                k,
            ) by {
                if k != key@ {
                    assert(listed(old(keys)@, k));
                    let i = choose|i: int|
                        0 <= i < old(keys)@.len() && (#[trigger] old(keys)@[i])@ == k;
                    assert(keys@[i]@ == k);
                } else if st.index.contains_key(key@) {
                    assert(listed(old(keys)@, k));
                }
            }
            index.insert(key, at);
        },
        Command::Remove { key } => {
            match index.get(key.as_str()) {
                Some(previous) => {
                    *stale = add_stale(*stale, previous.len);
                },
                None => {},
            }
            *stale = add_stale(*stale, at.len);
            index.remove(key.as_str());
        },
    }
}

/// Replays the records of `gen` onto the index, the list of keys and the count
/// of stale bytes, which stand at the state `st`. Says whether the generation
/// is a run of well-formed records; where it is not, what the three hold
/// afterwards is left open.
fn absorb(
    gen: &Generation,
    index: &mut StringHashMap<LogPointer>,
    keys: &mut Vec<String>,
    stale: &mut u64,
    Ghost(st): Ghost<Replayed>,
) -> (sound: bool)
    requires
        old(index)@ == st.index,
        *old(stale) == saturate(st.stale),
        covers(old(keys)@, st.index.dom()),
    ensures
        sound == (records(gen.data@) is Some),
        sound ==> {
            let after = replay_onto(st, locate(gen.id, records(gen.data@).unwrap()));
            &&& final(index)@ == after.index
            &&& *final(stale) == saturate(after.stale)
            &&& covers(final(keys)@, final(index)@.dom())
        },
{
    let bytes = gen.data.as_slice();
    let total: usize = bytes.len();
    let mut pos: usize = 0;
    let ghost mut done: Seq<Span> = Seq::empty();
    assert(locate(gen.id, done) =~= Seq::<Located>::empty());
    while pos < total
        invariant
            bytes@ == gen.data@,
            total == bytes@.len(),
            0 <= pos <= total,
            match records_from(bytes@, pos as int) {
                Some(rest) => records_from(bytes@, 0) == Some(done + rest),
                None => records_from(bytes@, 0) is None,
            },
            index@ == replay_onto(st, locate(gen.id, done)).index,
            *stale == saturate(replay_onto(st, locate(gen.id, done)).stale),
            covers(keys@, index@.dom()),
        decreases total - pos,
    {
        match Command::decode(bytes, pos) {
            Some((cmd, end)) => {
                proof {
                    lemma_parse_command_sound(bytes@, pos as int);
                    let span = Span { start: pos as int, end: end as int, cmd: cmd@ };
                    match records_from(bytes@, end as int) {
                        Some(rest) => {
                            assert(done.push(span) + rest =~= done + (seq![span] + rest));
                        },
                        None => {},
                    }
                    assert(locate(gen.id, done.push(span)) =~= locate(gen.id, done).push(
                        locate_one(gen.id, span),
                    ));
                    lemma_replay_push(st, locate(gen.id, done), locate_one(gen.id, span));
                }
                let at = LogPointer { gen: gen.id, pos: pos as u64, len: (end - pos) as u64 };
                let ghost before = replay_onto(st, locate(gen.id, done));
                track(index, keys, stale, cmd, at, Ghost(before));
                proof {
                    done = done.push(Span { start: pos as int, end: end as int, cmd: cmd@ });
                }
                pos = end;
            },
            None => {
                return false;
            },
        }
    }
    proof {
        assert(done + Seq::<Span>::empty() =~= done);
    }
    true
}

impl KvStore {
    /// Opens a store on what the data directory holds, with the usual limits.
    pub fn open(dir: DirectoryImage) -> (r: Result<KvStore, KvsError>)
        ensures
            opened(
                dir,
                Limits { compaction: COMPACTION_THRESHOLD, rollover: ROLLOVER_THRESHOLD },
                r,
            ),
    {
        KvStore::open_with(
            dir,
            Limits { compaction: COMPACTION_THRESHOLD, rollover: ROLLOVER_THRESHOLD },
        )
    }

    /// Opens a store on what the data directory holds. The generations found
    /// are replayed, lowest identifier first, to rebuild the index and the
    /// count of stale bytes; the highest becomes the active generation, and a
    /// first generation is created where none was found.
    pub fn open_with(dir: DirectoryImage, limits: Limits) -> (r: Result<KvStore, KvsError>)
        ensures
            opened(dir, limits, r),
    {
        if !dir.is_directory {
            return Err(KvsError::BadPathError(dir.path));
        }
        let ghost given = views(dir.generations@);
        let mut sealed = match arrange(dir.generations) {
            Some(sorted) => sorted,
            None => {
                return Err(
                    KvsError::InternalError(
                        String::from_str("two generations share an identifier"),
                    ),
                );
            },
        };
        let ghost found = views(sealed@);
        let mut pending: Vec<LogEffect> = Vec::new();
        let active = match sealed.pop() {
            Some(last) => last,
            None => {
                pending.push(LogEffect::Create { gen: FIRST_GENERATION });
                Generation { id: FIRST_GENERATION, data: Vec::new() }
            },
        };
        let ghost gens = views(sealed@).push(active@);
        proof {
            assert(gens =~= initial_generations(found));
            assert(effect_views(pending@) =~= initial_effects(found));
            if found.len() > 0 {
                assert(apply_effects(found, effect_views(pending@)) == gens);
            } else {
                let effects = effect_views(pending@);
                assert(effects.drop_last() =~= Seq::<LogEffectView>::empty());
                assert(apply_effects(found, effects.drop_last()) == found);
                assert(apply_effects(found, effects) =~= gens);
            }
        }
        let mut index: StringHashMap<LogPointer> = StringHashMap::new();
        let mut keys: Vec<String> = Vec::new();
        let mut stale: u64 = 0;
        let mut i: usize = 0;
        assert(views(sealed@).subrange(0, 0) =~= Seq::<GenerationView>::empty());
        while i < sealed.len()
            invariant
                0 <= i <= sealed.len(),
                dir.is_directory,
                given == views(dir.generations@),
                distinct_ids(given),
                arranged(given, found),
                gens == views(sealed@).push(active@),
                gens == initial_generations(found),
                found.len() > 0 ==> gens == found,
                found.len() == 0 ==> sealed.len() == 0,
                journal(views(sealed@).subrange(0, i as int)) is Some,
                index@ == replay(journal(views(sealed@).subrange(0, i as int)).unwrap()).index,
                stale == saturate(
                    replay(journal(views(sealed@).subrange(0, i as int)).unwrap()).stale,
                ),
                covers(keys@, index@.dom()),
            decreases sealed.len() - i,
        {
            let ghost before = views(sealed@).subrange(0, i as int);
            let ghost so_far = journal(before).unwrap();
            let ghost next = views(sealed@).subrange(0, i + 1);
            proof {
                assert(next.drop_last() =~= before);
                assert(next.last() == sealed@[i as int]@);
            }
            let sound = absorb(
                &sealed[i],
                &mut index,
                &mut keys,
                &mut stale,
                Ghost(replay(so_far)),
            );
            if !sound {
                proof {
                    assert(found.len() > 0);
                    assert(found[i as int] == gens[i as int]);
                    assert(found.contains(gens[i as int]));
                    assert(given.contains(gens[i as int]));
                    let m = choose|m: int| 0 <= m < given.len() && given[m] == gens[i as int];
                    assert(records(given[m].bytes) is None);
                }
                return Err(
                    KvsError::SerdeError(String::from_str("a record of the log cannot be read")),
                );
            }
            proof {
                lemma_replay_concat(
                    blank(),
                    so_far,
                    locate(sealed@[i as int].id, records(sealed@[i as int].data@).unwrap()),
                );
            }
            i = i + 1;
        }
        let ghost before = views(sealed@);
        let ghost so_far = journal(before).unwrap();
        proof {
            assert(views(sealed@).subrange(0, i as int) =~= before);
            assert(gens.drop_last() =~= before);
        }
        let sound = absorb(&active, &mut index, &mut keys, &mut stale, Ghost(replay(so_far)));
        if !sound {
            proof {
                assert(found.len() > 0);
                assert(found[gens.len() - 1] == gens[gens.len() - 1]);
                assert(found.contains(gens[gens.len() - 1]));
                assert(given.contains(gens[gens.len() - 1]));
                let m = choose|m: int| 0 <= m < given.len() && given[m] == gens[gens.len() - 1];
                assert(records(given[m].bytes) is None);
            }
            return Err(
                KvsError::SerdeError(String::from_str("a record of the log cannot be read")),
            );
        }
        proof {
            lemma_replay_concat(blank(), so_far, locate(active.id, records(active.data@).unwrap()));
            assert forall|n: int| 0 <= n < gens.len() implies (#[trigger] gens[n]).bytes.len()
                <= u64::MAX by {
                if n < sealed@.len() {
                    lemma_generation_fits(sealed@[n]);
                } else {
                    lemma_generation_fits(active);
                }
            }
            lemma_journal_readable(gens);
            assert forall|m: int| 0 <= m < given.len() implies records(
                (#[trigger] given[m]).bytes,
            ) is Some by {
                assert(given.contains(given[m]));
                assert(found.contains(given[m]));
                let q = choose|q: int| 0 <= q < found.len() && found[q] == given[m];
                assert(gens[q] == found[q]);
            }
        }
        Ok(
            KvStore {
                sealed,
                active,
                index,
                keys,
                stale,
                limits,
                pending,
                persisted: Ghost(found),
            },
        )
    }

    /// Retrieves the value of `key`; `Ok(None)` where the store holds no such
    /// key. The store is left as it was.
    pub fn get(&mut self, key: String) -> (r: Result<Option<String>, KvsError>)
        requires
            old(self).wf(),
        ensures
            *final(self) == *old(self),
            r matches Ok(found) && text_of(found) == value_of(old(self)@, key@),
    {
        self.lookup(key.as_str())
    }

    /// The value of `key`, or `None` where the store holds no such key. The
    /// index gives the place of the key's record; the record is read there
    /// and must be a `Put`.
    pub fn lookup(&self, key: &str) -> (r: Result<Option<String>, KvsError>)
        requires
            self.wf(),
        ensures
            r matches Ok(found) && text_of(found) == value_of(self@, key@),
    {
        proof {
            lemma_replay_domains(journal(self.generations()).unwrap());
        }
        let place = match self.index.get(key) {
            Some(place) => *place,
            None => {
                return Ok(None);
            },
        };
        let gen = match self.find(place.gen) {
            Some(gen) => gen,
            None => {
                proof {
                    lemma_live_record(self.generations(), key@);
                }
                return Err(KvsError::UnknownError);
            },
        };
        proof {
            self.lemma_record_in(key@, *gen);
        }
        let bytes = gen.data.as_slice();
        assert(place.pos < bytes.len());
        match Command::decode(bytes, place.pos as usize) {
            Some((Command::Put { key: _, value }, _)) => Ok(Some(value)),
            _ => Err(KvsError::UnknownError),
        }
    }

    /// Sets the value of `key` to `value`; a value that the key had before is
    /// overwritten.
    pub fn set(&mut self, key: String, value: String) -> (r: Result<(), KvsError>)
        requires
            old(self).wf(),
        ensures
            r is Ok,
            final(self).wf(),
            final(self)@ == old(self)@.insert(key@, value@),
            old(self).wrote(final(self), CommandView::Put { key: key@, value: value@ }),
    {
        let ghost recs = journal(self.generations()).unwrap();
        let ghost cmd = CommandView::Put { key: key@, value: value@ };
        self.write(Command::Put { key, value });
        proof {
            lemma_replay_push(blank(), recs, written(old(self).generations(), cmd));
        }
        let ghost mid_pending = self.pending();
        self.settle();
        proof {
            let tail = settle_effects(
                old(self).limits(),
                saturate(replay(recs.push(written(old(self).generations(), cmd))).stale),
                grown(old(self).generations(), cmd.bytes()),
                self.generations(),
            );
            assert(self.pending() == mid_pending + tail);
        }
        Ok(())
    }

    /// Removes `key` and its value. Where the store holds no such key, nothing
    /// is written and the removal fails.
    pub fn remove(&mut self, key: String) -> (r: Result<(), KvsError>)
        requires
            old(self).wf(),
        ensures
            final(self).wf(),
            match r {
                Ok(_) => {
                    &&& old(self)@.contains_key(key@)
                    &&& final(self)@ == old(self)@.remove(key@)
                    &&& old(self).wrote(final(self), CommandView::Remove { key: key@ })
                },
                Err(KvsError::BadRemovalError) => {
                    &&& !old(self)@.contains_key(key@)
                    &&& *final(self) == *old(self)
                },
                Err(_) => false,
            },
    {
        let ghost recs = journal(self.generations()).unwrap();
        let ghost cmd = CommandView::Remove { key: key@ };
        proof {
            lemma_replay_domains(recs);
        }
        if !self.index.contains_key(key.as_str()) {
            return Err(KvsError::BadRemovalError);
        }
        self.write(Command::Remove { key });
        proof {
            lemma_replay_push(blank(), recs, written(old(self).generations(), cmd));
        }
        self.settle();
        Ok(())
    }

    /// Compacts the log, whatever the count of stale bytes: the record of each
    /// live key is copied into one new generation, a new active generation is
    /// opened behind it, and every older generation is dropped. Where the two
    /// identifiers that this takes are not to be had, the store is left as it
    /// is.
    pub fn compact(&mut self)
        requires
            old(self).wf(),
        ensures
            final(self).wf(),
            final(self)@ == old(self)@,
            final(self).persisted() == old(self).persisted(),
            final(self).limits() == old(self).limits(),
            if old(self).active_id() <= u64::MAX - 2 {
                &&& compacted(old(self).generations(), final(self).generations())
                &&& final(self).stale_bytes() == 0
                &&& final(self).pending() == old(self).pending() + compaction_effects(
                    old(self).generations(),
                    final(self).generations(),
                )
            } else {
                *final(self) == *old(self)
            },
    {
        if self.active.id <= u64::MAX - 2 {
            self.rewrite();
        }
    }

    /// The queued effects, in the order in which they are to be applied to
    /// the generations on disk. The queue is empty afterwards.
    pub fn take_effects(&mut self) -> (effects: Vec<LogEffect>)
        requires
            old(self).wf(),
        ensures
            final(self).wf(),
            effect_views(effects@) == old(self).pending(),
            apply_effects(old(self).persisted(), effect_views(effects@))
                == final(self).generations(),
            final(self).pending() == Seq::<LogEffectView>::empty(),
            final(self).persisted() == final(self).generations(),
            final(self).generations() == old(self).generations(),
            final(self).index() == old(self).index(),
            final(self).stale_bytes() == old(self).stale_bytes(),
            final(self).limits() == old(self).limits(),
    {
        let mut effects: Vec<LogEffect> = Vec::new();
        std::mem::swap(&mut effects, &mut self.pending);
        self.persisted = Ghost(self.generations());
        proof {
            assert(effect_views(self.pending@) =~= Seq::<LogEffectView>::empty());
        }
        effects
    }

    /// Whether the store holds `key`.
    pub fn contains_key(&self, key: &str) -> (yes: bool)
        requires
            self.wf(),
        ensures
            yes == self@.contains_key(key@),
    {
        proof {
            lemma_replay_domains(journal(self.generations()).unwrap());
        }
        self.index.contains_key(key)
    }

    /// The place of the record that holds the value of `key`, if the store
    /// holds the key.
    pub fn locate(&self, key: &str) -> (r: Option<LogPointer>)
        ensures
            r == if self.index().contains_key(key@) {
                Some(self.index()[key@])
            } else {
                None::<LogPointer>
            },
    {
        match self.index.get(key) {
            Some(place) => Some(*place),
            None => None,
        }
    }

    /// The count of stale bytes.
    pub fn stale(&self) -> (count: u64)
        ensures
            count == self.stale_bytes(),
    {
        self.stale
    }

    /// The identifier of the active generation.
    pub fn active_generation(&self) -> (id: u64)
        ensures
            id == self.active_id(),
    {
        self.active.id
    }

    /// The identifiers of the generations, lowest first.
    pub fn generation_ids(&self) -> (ids: Vec<u64>)
        ensures
            ids@ == ids_of(self.generations()),
    {
        let mut ids: Vec<u64> = Vec::new();
        let mut i: usize = 0;
        while i < self.sealed.len()
            invariant
                0 <= i <= self.sealed.len(),
                ids@.len() == i,
                forall|j: int| 0 <= j < i ==> ids@[j] == self.sealed@[j].id,
            decreases self.sealed.len() - i,
        {
            ids.push(self.sealed[i].id);
            i = i + 1;
        }
        ids.push(self.active.id);
        assert(ids@ =~= ids_of(self.generations()));
        ids
    }

    /// A copy of the generations as they stand, lowest identifier first: what
    /// the data directory holds once every queued effect is applied.
    pub fn image(&self) -> (copy: Vec<Generation>)
        ensures
            views(copy@) == self.generations(),
    {
        let mut copy: Vec<Generation> = Vec::new();
        let mut i: usize = 0;
        while i < self.sealed.len()
            invariant
                0 <= i <= self.sealed.len(),
                copy@.len() == i,
                forall|j: int| 0 <= j < i ==> copy@[j]@ == self.sealed@[j]@,
            decreases self.sealed.len() - i,
        {
            let gen = &self.sealed[i];
            copy.push(Generation { id: gen.id, data: slice_to_vec(gen.data.as_slice()) });
            i = i + 1;
        }
        copy.push(
            Generation { id: self.active.id, data: slice_to_vec(self.active.data.as_slice()) },
        );
        assert(views(copy@) =~= self.generations());
        copy
    }
}

impl KvStore {
    /// The generation with the identifier `id`, if the log holds one.
    fn find(&self, id: u64) -> (r: Option<&Generation>)
        ensures
            match r {
                Some(gen) => gen.id == id && exists|i: int|
                    0 <= i < self.generations().len() && #[trigger] self.generations()[i] == gen@,
                None => forall|i: int|
                    0 <= i < self.generations().len() ==> (#[trigger] self.generations()[i]).id
                        != id,
            },
    {
        if self.active.id == id {
            assert(self.generations()[self.sealed@.len() as int] == self.active@);
            return Some(&self.active);
        }
        let mut i: usize = 0;
        while i < self.sealed.len()
            invariant
                0 <= i <= self.sealed.len(),
                self.active.id != id,
                forall|j: int| 0 <= j < i ==> self.sealed@[j].id != id,
            decreases self.sealed.len() - i,
        {
            if self.sealed[i].id == id {
                assert(self.generations()[i as int] == self.sealed@[i as int]@);
                return Some(&self.sealed[i]);
            }
            i = i + 1;
        }
        assert forall|j: int| 0 <= j < self.generations().len() implies (
        #[trigger] self.generations()[j]).id != id by {
            if j < self.sealed@.len() {
                assert(self.generations()[j] == self.sealed@[j]@);
            }
        }
        None
    }

    /// Appends the record of `cmd` to the active generation, brings the
    /// index and the count of stale bytes up to date, and queues the effect.
    fn write(&mut self, cmd: Command)
        requires
            old(self).wf(),
        ensures
            final(self).wf(),
            cmd@.well_sized(),
            final(self).generations() == grown(old(self).generations(), cmd@.bytes()),
            journal(final(self).generations()) == Some(
                journal(old(self).generations()).unwrap().push(
                    written(old(self).generations(), cmd@),
                ),
            ),
            final(self).pending() == old(self).pending().push(
                LogEffectView::Append { gen: old(self).active_id(), bytes: cmd@.bytes() },
            ),
            final(self).persisted() == old(self).persisted(),
            final(self).limits() == old(self).limits(),
    {
        let ghost gens = self.generations();
        let ghost recs = journal(gens).unwrap();
        let mut record = cmd.encode();
        let copy = slice_to_vec(record.as_slice());
        let start: usize = self.active.data.len();
        let len: usize = record.len();
        let at = LogPointer { gen: self.active.id, pos: start as u64, len: len as u64 };
        self.active.data.append(&mut record);
        proof {
            lemma_journal_append(gens, cmd@);
            lemma_replay_push(blank(), recs, written(gens, cmd@));
            assert(self.generations() =~= grown(gens, cmd@.bytes()));
            assert(at == written(gens, cmd@).at);
        }
        track(&mut self.index, &mut self.keys, &mut self.stale, cmd, at, Ghost(replay(recs)));
        self.pending.push(LogEffect::Append { gen: self.active.id, bytes: copy });
        proof {
            let effect = LogEffectView::Append { gen: old(self).active_id(), bytes: cmd@.bytes() };
            assert(effect_views(self.pending@) =~= effect_views(old(self).pending@).push(effect));
            lemma_effects_push(self.persisted(), old(self).pending(), effect);
            assert forall|n: int| 0 <= n < self.generations().len() implies (
            #[trigger] self.generations()[n]).bytes.len() <= u64::MAX by {
                if n < self.sealed@.len() {
                    lemma_generation_fits(self.sealed@[n]);
                } else {
                    lemma_generation_fits(self.active);
                }
            }
        }
    }

    /// Seals the active generation and opens a new one behind it.
    fn seal(&mut self)
        requires
            old(self).wf(),
            old(self).active_id() < u64::MAX,
        ensures
            final(self).wf(),
            final(self).generations() == old(self).generations().push(
                GenerationView { id: (old(self).active_id() + 1) as u64, bytes: Seq::empty() },
            ),
            journal(final(self).generations()) == journal(old(self).generations()),
            final(self).pending() == old(self).pending().push(
                LogEffectView::Create { gen: (old(self).active_id() + 1) as u64 },
            ),
            final(self).persisted() == old(self).persisted(),
            final(self).limits() == old(self).limits(),
    {
        let ghost gens = self.generations();
        let id: u64 = self.active.id + 1;
        let mut previous = Generation { id, data: Vec::new() };
        std::mem::swap(&mut previous, &mut self.active);
        self.sealed.push(previous);
        self.pending.push(LogEffect::Create { gen: id });
        proof {
            let fresh = GenerationView { id, bytes: Seq::empty() };
            assert(self.generations() =~= gens.push(fresh));
            lemma_journal_open(gens, id);
            let effect = LogEffectView::Create { gen: id };
            assert(effect_views(self.pending@) =~= effect_views(old(self).pending@).push(effect));
            lemma_effects_push(self.persisted(), old(self).pending(), effect);
        }
    }

    /// Copies the record of each live key into one new generation, opens a new
    /// active generation behind it, and drops every older generation.
    fn rewrite(&mut self)
        requires
            old(self).wf(),
            old(self).active_id() <= u64::MAX - 2,
        ensures
            final(self).wf(),
            compacted(old(self).generations(), final(self).generations()),
            final(self)@ == old(self)@,
            final(self).stale_bytes() == 0,
            final(self).pending() == old(self).pending() + compaction_effects(
                old(self).generations(),
                final(self).generations(),
            ),
            final(self).persisted() == old(self).persisted(),
            final(self).limits() == old(self).limits(),
    {
        let ghost gens = self.generations();
        let ghost was = replay(journal(gens).unwrap());
        let c: u64 = self.active.id + 1;
        let mut target: Vec<u8> = Vec::new();
        let mut fresh: StringHashMap<LogPointer> = StringHashMap::new();
        let mut kept: Vec<String> = Vec::new();
        let mut i: usize = 0;
        proof {
            assert(locate(c, Seq::<Span>::empty()) =~= Seq::<Located>::empty());
        }
        while i < self.keys.len()
            invariant
                0 <= i <= self.keys.len(),
                self.wf(),
                gens == self.generations(),
                was == replay(journal(gens).unwrap()),
                c == self.active_id() + 1,
                records(target@) is Some,
                fresh@ == replay(locate(c, records(target@).unwrap())).index,
                replay(locate(c, records(target@).unwrap())).stale == 0,
                forall|k: Seq<char>| #[trigger]
                    fresh@.contains_key(k) ==> {
                        &&& was.index.contains_key(k)
                        &&& replay(locate(c, records(target@).unwrap())).contents[k]
                            == was.contents[k]
                        &&& fresh@[k].gen == c
                        &&& fresh@[k].len == was.index[k].len
                    },
                forall|j: int|
                    0 <= j < i && was.index.contains_key(#[trigger] self.keys@[j]@)
                        ==> fresh@.contains_key(self.keys@[j]@),
                forall|m: int|
                    0 <= m < locate(c, records(target@).unwrap()).len() ==> restates(
                        #[trigger] locate(c, records(target@).unwrap())[m],
                        was.contents,
                    ),
                covers(kept@, fresh@.dom()),
            decreases self.keys.len() - i,
        {
            let key = &self.keys[i];
            if !fresh.contains_key(key.as_str()) {
                let found = match self.index.get(key.as_str()) {
                    Some(place) => Some(*place),
                    None => None,
                };
                if let Some(place) = found {
                    let holder = self.find(place.gen);
                    proof {
                        lemma_live_record(gens, key@);
                    }
                    if let Some(gen) = holder {
                        proof {
                            self.lemma_record_in(key@, *gen);
                            lemma_parse_command_sound(gen.data@, place.pos as int);
                        }
                        let ghost kept_before = kept@;
                        let ghost fresh_before = fresh@;
                        let ghost cmd = CommandView::Put { key: key@, value: was.contents[key@] };
                        let ghost spans = records(target@).unwrap();
                        let ghost recs = locate(c, spans);
                        let ghost before = target@;
                        let bytes = gen.data.as_slice();
                        assert(place.pos + place.len <= bytes.len());
                        let from: usize = place.pos as usize;
                        let to: usize = (place.pos + place.len) as usize;
                        let mut copy = slice_to_vec(slice_subrange(bytes, from, to));
                        let start: usize = target.len();
                        target.append(&mut copy);
                        let at = LogPointer { gen: c, pos: start as u64, len: place.len };
                        proof {
                            assert(target@ == before + cmd.bytes());
                            lemma_records_append(before, 0, cmd);
                            let span = appended_span(before, cmd);
                            assert(locate(c, spans.push(span)) =~= recs.push(locate_one(c, span)));
                            lemma_replay_push(blank(), recs, locate_one(c, span));
                            assert(locate_one(c, span).at == at);
                            let grown_recs = recs.push(locate_one(c, span));
                            assert forall|m: int| 0 <= m < grown_recs.len() implies restates(
                                #[trigger] grown_recs[m],
                                was.contents,
                            ) by {
                                if m < recs.len() {
                                    assert(grown_recs[m] == recs[m]);
                                }
                            }
                        }
                        let copied = key.clone();
                        fresh.insert(copied, at);
                        let listed_key = key.clone();
                        kept.push(listed_key);
                        proof {
                            assert(kept@[kept@.len() - 1]@ == key@);
                            assert forall|k: Seq<char>| fresh@.dom().contains(k) implies listed(
                                kept@,
                                k,
                            ) by {
                                if k != key@ {
                                    assert(fresh_before.dom().contains(k));
                                    assert(listed(kept_before, k));
                                    let w = choose|w: int|
                                        0 <= w < kept_before.len() && (#[trigger] kept_before[w])@
                                            == k;
                                    assert(kept@[w]@ == k);
                                }
                            }
                        }
                    }
                }
            }
            i = i + 1;
        }
        let ghost spans = records(target@).unwrap();
        let ghost recs = locate(c, spans);
        let image = slice_to_vec(target.as_slice());
        let ghost first = GenerationView { id: c, bytes: target@ };
        let ghost second = GenerationView { id: (c + 1) as u64, bytes: Seq::empty() };
        let ghost after = seq![first, second];
        proof {
            lemma_replay_domains(recs);
            lemma_replay_domains(journal(gens).unwrap());
            assert(fresh@.dom() =~= was.index.dom()) by {
                assert forall|k: Seq<char>| was.index.contains_key(k) implies fresh@.contains_key(
                    k,
                ) by {
                    assert(listed(self.keys@, k));
                    let j = choose|j: int|
                        0 <= j < self.keys@.len() && (#[trigger] self.keys@[j])@ == k;
                    assert(was.index.contains_key(self.keys@[j]@));
                }
            }
            assert(replay(recs).contents =~= was.contents);
            // The journal of the two new generations is the run of copied records.
            let one = seq![first];
            assert(one.drop_last() =~= Seq::<GenerationView>::empty());
            assert(journal(one.drop_last()) == Some(Seq::<Located>::empty()));
            assert(Seq::<Located>::empty() + recs =~= recs);
            assert(journal(one) == Some(recs));
            assert(after =~= one.push(second));
            lemma_journal_open(one, (c + 1) as u64);
            lemma_generation_fits(Generation { id: c, data: target });
            // The queued effects lead from the old generations to the new ones.
            let e1 = LogEffectView::Create { gen: c };
            let e2 = LogEffectView::Append { gen: c, bytes: target@ };
            let e3 = LogEffectView::Create { gen: (c + 1) as u64 };
            let queued = self.pending();
            let base = self.persisted();
            lemma_effects_push(base, queued, e1);
            lemma_effects_push(base, queued.push(e1), e2);
            lemma_effects_push(base, queued.push(e1).push(e2), e3);
            let g1 = gens.push(GenerationView { id: c, bytes: Seq::empty() });
            assert(apply_effects(base, queued.push(e1)) == g1);
            let g2 = gens.push(first);
            assert(Seq::<u8>::empty() + target@ =~= target@);
            assert(apply_effect(g1, e2) =~= g2);
            let g3 = g2.push(second);
            assert(g3 =~= gens + after);
            lemma_removals(gens, after);
            lemma_effects_concat(base, queued.push(e1).push(e2).push(e3), removals(gens));
            assert(queued.push(e1).push(e2).push(e3) + removals(gens) =~= queued
                + compaction_effects(gens, after));
        }
        let gone = self.generation_ids();
        self.sealed = Vec::new();
        self.sealed.push(Generation { id: c, data: target });
        self.active = Generation { id: c + 1, data: Vec::new() };
        self.index = fresh;
        self.keys = kept;
        self.stale = 0;
        self.pending.push(LogEffect::Create { gen: c });
        self.pending.push(LogEffect::Append { gen: c, bytes: image });
        self.pending.push(LogEffect::Create { gen: c + 1 });
        proof {
            assert(self.generations() =~= after);
            assert(removals(gens).subrange(0, 0) =~= Seq::<LogEffectView>::empty());
            assert(effect_views(self.pending@) =~= effect_views(old(self).pending@) + seq![
                LogEffectView::Create { gen: c },
                LogEffectView::Append { gen: c, bytes: after[0].bytes },
                LogEffectView::Create { gen: (c + 1) as u64 },
            ] + removals(gens).subrange(0, 0));
        }
        let mut n: usize = 0;
        while n < gone.len()
            invariant
                0 <= n <= gone.len(),
                gone@ == ids_of(gens),
                effect_views(self.pending@) == effect_views(old(self).pending@) + seq![
                    LogEffectView::Create { gen: c },
                    LogEffectView::Append { gen: c, bytes: after[0].bytes },
                    LogEffectView::Create { gen: (c + 1) as u64 },
                ] + removals(gens).subrange(0, n as int),
                self.generations() == after,
                self.sealed@.len() == 1,
                self.sealed@[0]@ == after[0],
                self.active@ == after[1],
                self.index@ == replay(journal(after).unwrap()).index,
                self.stale == 0,
                self.limits == old(self).limits,
                self.persisted@ == old(self).persisted@,
                covers(self.keys@, self.index@.dom()),
            decreases gone.len() - n,
        {
            let ghost before_push = effect_views(self.pending@);
            self.pending.push(LogEffect::Remove { gen: gone[n] });
            proof {
                let effect = LogEffectView::Remove { gen: gens[n as int].id };
                assert(effect_views(self.pending@) =~= before_push.push(effect));
                assert(removals(gens).subrange(0, n + 1) =~= removals(gens).subrange(
                    0,
                    n as int,
                ).push(effect));
                assert(self.generations() =~= after);
            }
            n = n + 1;
        }
        proof {
            assert(removals(gens).subrange(0, n as int) =~= removals(gens));
            assert(effect_views(self.pending@) =~= effect_views(old(self).pending@)
                + compaction_effects(gens, after));
        }
    }

    /// Settles the log once a write is through: compacts it where the stale
    /// bytes exceed the limit, else seals the active generation where its
    /// size exceeds the limit.
    fn settle(&mut self)
        requires
            old(self).wf(),
        ensures
            final(self).wf(),
            final(self)@ == old(self)@,
            settled(
                old(self).limits(),
                old(self).stale_bytes(),
                old(self).generations(),
                final(self).generations(),
            ),
            final(self).pending() == old(self).pending() + settle_effects(
                old(self).limits(),
                old(self).stale_bytes(),
                old(self).generations(),
                final(self).generations(),
            ),
            final(self).persisted() == old(self).persisted(),
            final(self).limits() == old(self).limits(),
    {
        if self.stale > self.limits.compaction && self.active.id <= u64::MAX - 2 {
            self.rewrite();
        } else if self.active.data.len() as u64 > self.limits.rollover && self.active.id
            < u64::MAX {
            self.seal();
            proof {
                assert(self.pending() =~= old(self).pending() + seq![
                    LogEffectView::Create { gen: (old(self).active_id() + 1) as u64 },
                ]);
            }
        } else {
            proof {
                assert(self.pending() =~= old(self).pending() + Seq::<LogEffectView>::empty());
            }
        }
    }
}

} // verus!

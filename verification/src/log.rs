//! The model of the log: generations of records, and what replaying them
//! yields.
//!
//! A generation is the image of one segment file: a run of records with no
//! padding between them. The journal is the run of all records of all
//! generations, lowest generation first. Replaying the journal gives the index
//! (where the live record of each key lies), the contents (the value of each
//! key) and the number of stale bytes.

use vstd::prelude::*;
use crate::command::{
    lemma_parse_command_complete, lemma_parse_command_sound, parse_command, CommandView,
};

verus! {

/// Where one record lies in the log.
#[derive(Clone, Copy, Debug, PartialEq, Eq, Structural)]
pub struct LogPointer {
    /// The generation that holds the record.
    pub gen: u64,
    /// The offset of the record's first byte within the generation.
    pub pos: u64,
    /// The number of bytes of the record.
    pub len: u64,
}

/// The image of one generation: its identifier and its bytes.
#[derive(Debug)]
pub struct Generation {
    pub id: u64,
    pub data: Vec<u8>,
}

/// What a `Generation` stands for in specifications.
pub struct GenerationView {
    pub id: u64,
    pub bytes: Seq<u8>,
}

impl View for Generation {
    type V = GenerationView;

    open spec fn view(&self) -> GenerationView {
        GenerationView { id: self.id, bytes: self.data@ }
    }
}

/// The views of a run of generations.
pub open spec fn views(gens: Seq<Generation>) -> Seq<GenerationView> {
    Seq::new(gens.len(), |i: int| gens[i]@)
}

/// A record together with its extent within the bytes of a generation.
pub struct Span {
    pub start: int,
    pub end: int,
    pub cmd: CommandView,
}

/// A record together with the place where it lies in the log.
pub struct Located {
    pub at: LogPointer,
    pub cmd: CommandView,
}

/// What replaying a journal yields.
pub struct Replayed {
    /// For each live key, the place of the record that set it last.
    pub index: Map<Seq<char>, LogPointer>,
    /// For each live key, its value.
    pub contents: Map<Seq<char>, Seq<char>>,
    /// The bytes of the records that are no longer reachable from the index.
    pub stale: nat,
}

/// The records that lie in `bytes` from position `at` to the end, or `None`
/// where the bytes from `at` on are not a run of well-formed records.
pub open spec fn records_from(bytes: Seq<u8>, at: int) -> Option<Seq<Span>>
    decreases bytes.len() - at,
{
    if at >= bytes.len() {
        Some(Seq::empty())
    } else {
        match parse_command(bytes, at) {
            Some((cmd, end)) => if at < end <= bytes.len() {
                match records_from(bytes, end) {
                    Some(rest) => Some(seq![Span { start: at, end, cmd }] + rest),
                    None => None,
                }
            } else {
                None
            },
            None => None,
        }
    }
}

/// The records of a whole generation.
pub open spec fn records(bytes: Seq<u8>) -> Option<Seq<Span>> {
    records_from(bytes, 0)
}

/// The record `span` of the generation `gen`, with its place in the log.
pub open spec fn locate_one(gen: u64, span: Span) -> Located {
    Located {
        at: LogPointer {
            gen,
            pos: span.start as u64,
            len: (span.end - span.start) as u64,
        },
        cmd: span.cmd,
    }
}

/// The records `spans` of the generation `gen`, each with its place in the log.
pub open spec fn locate(gen: u64, spans: Seq<Span>) -> Seq<Located> {
    Seq::new(spans.len(), |i: int| locate_one(gen, spans[i]))
}

/// The extent that the record of `c` takes when it is appended to `bytes`.
pub open spec fn appended_span(bytes: Seq<u8>, c: CommandView) -> Span {
    Span { start: bytes.len() as int, end: bytes.len() + c.bytes().len() as int, cmd: c }
}

/// The journal of a log: the records of all its generations in order, or
/// `None` where some generation is not a run of well-formed records.
pub open spec fn journal(gens: Seq<GenerationView>) -> Option<Seq<Located>>
    decreases gens.len(),
{
    if gens.len() == 0 {
        Some(Seq::empty())
    } else {
        match (journal(gens.drop_last()), records(gens.last().bytes)) {
            (Some(before), Some(spans)) => Some(before + locate(gens.last().id, spans)),
            _ => None,
        }
    }
}

/// Whether the identifiers of the generations strictly ascend.
pub open spec fn ascending(gens: Seq<GenerationView>) -> bool {
    forall|i: int, j: int| 0 <= i < j < gens.len() ==> gens[i].id < gens[j].id
}

/// Whether every generation is short enough for offsets to fit in 64 bits.
pub open spec fn fits(gens: Seq<GenerationView>) -> bool {
    forall|i: int| 0 <= i < gens.len() ==> (#[trigger] gens[i]).bytes.len() <= u64::MAX
}

/// Whether every generation is a run of well-formed records.
pub open spec fn readable(gens: Seq<GenerationView>) -> bool {
    forall|i: int| 0 <= i < gens.len() ==> records((#[trigger] gens[i]).bytes) is Some
}

/// The state before any record is replayed.
pub open spec fn blank() -> Replayed {
    Replayed { index: Map::empty(), contents: Map::empty(), stale: 0 }
}

/// The length of the record that the index holds for `key`, or zero where it
/// holds none: the bytes that turn stale when the key is written again.
pub open spec fn superseded(index: Map<Seq<char>, LogPointer>, key: Seq<char>) -> nat {
    if index.contains_key(key) {
        index[key].len as nat
    } else {
        0
    }
}

/// The state after one more record. A `Put` makes its record the live one of
/// its key; the record it supersedes turns stale. A `Remove` takes the key
/// out; the record it supersedes and the `Remove` record itself turn stale.
pub open spec fn apply(st: Replayed, rec: Located) -> Replayed {
    match rec.cmd {
        CommandView::Put { key, value } => Replayed {
            index: st.index.insert(key, rec.at),
            contents: st.contents.insert(key, value),
            stale: st.stale + superseded(st.index, key),
        },
        CommandView::Remove { key } => Replayed {
            index: st.index.remove(key),
            contents: st.contents.remove(key),
            stale: st.stale + superseded(st.index, key) + rec.at.len as nat,
        },
    }
}

/// The state after the records of `recs`, replayed in order onto `st`.
pub open spec fn replay_onto(st: Replayed, recs: Seq<Located>) -> Replayed
    decreases recs.len(),
{
    if recs.len() == 0 {
        st
    } else {
        apply(replay_onto(st, recs.drop_last()), recs.last())
    }
}

/// The state after the records of `recs`, replayed in order from nothing.
pub open spec fn replay(recs: Seq<Located>) -> Replayed {
    replay_onto(blank(), recs)
}

/// What a count of stale bytes is held as: the count itself, or the largest
/// `u64` where the count is larger.
pub open spec fn saturate(n: nat) -> u64 {
    if n > u64::MAX {
        u64::MAX
    } else {
        n as u64
    }
}

/// Whether `small` holds nothing but pairs that `large` holds too.
pub open spec fn within(
    small: Map<Seq<char>, Seq<char>>,
    large: Map<Seq<char>, Seq<char>>,
) -> bool {
    forall|k: Seq<char>| #[trigger]
        small.contains_key(k) ==> large.contains_key(k) && large[k] == small[k]
}

/// Whether `rec` is a `Put` of a pair that `contents` holds.
pub open spec fn restates(rec: Located, contents: Map<Seq<char>, Seq<char>>) -> bool {
    rec.cmd matches CommandView::Put { key, value } && contents.contains_key(key) && contents[key]
        == value
}

/// The bytes of a generation that is held in memory are few enough for every
/// offset into them to fit in 64 bits.
pub proof fn lemma_generation_fits(gen: Generation)
    ensures
        gen@.bytes.len() <= u64::MAX,
{
    assert(gen.data.len() == gen.data@.len());
}

/// Each record of a generation is read back at its own start.
pub proof fn lemma_records_parse(bytes: Seq<u8>, at: int, m: int)
    requires
        0 <= at,
        records_from(bytes, at) is Some,
        0 <= m < records_from(bytes, at).unwrap().len(),
    ensures
        ({
            let span = records_from(bytes, at).unwrap()[m];
            &&& at <= span.start < span.end <= bytes.len()
            &&& parse_command(bytes, span.start) == Some((span.cmd, span.end))
        }),
    decreases bytes.len() - at,
{
    let (cmd, end) = parse_command(bytes, at).unwrap();
    let rest = records_from(bytes, end).unwrap();
    if m > 0 {
        lemma_records_parse(bytes, end, m - 1);
        assert(records_from(bytes, at).unwrap()[m] == rest[m - 1]);
    }
}

/// Appending the record of a command to a generation appends that record to
/// its records.
pub proof fn lemma_records_append(bytes: Seq<u8>, at: int, c: CommandView)
    requires
        c.well_sized(),
        0 <= at <= bytes.len(),
        records_from(bytes, at) is Some,
    ensures
        records_from(bytes + c.bytes(), at) == Some(
            records_from(bytes, at).unwrap().push(appended_span(bytes, c)),
        ),
    decreases bytes.len() - at,
{
    let grown = bytes + c.bytes();
    let added = appended_span(bytes, c);
    crate::command::lemma_command_bytes_len(c);
    if at == bytes.len() {
        assert(grown.subrange(at, at + c.bytes().len()) =~= c.bytes());
        lemma_parse_command_complete(grown, at, c);
        assert(records_from(grown, grown.len() as int) == Some(Seq::<Span>::empty()));
        assert(seq![added] + Seq::<Span>::empty() =~= Seq::<Span>::empty().push(added));
    } else {
        lemma_parse_command_sound(bytes, at);
        let (cmd, end) = parse_command(bytes, at).unwrap();
        assert(grown.subrange(at, end) =~= bytes.subrange(at, end));
        lemma_parse_command_complete(grown, at, cmd);
        lemma_records_append(bytes, end, c);
        let rest = records_from(bytes, end).unwrap();
        let first = Span { start: at, end, cmd };
        assert(seq![first] + rest.push(added) =~= (seq![first] + rest).push(added));
    }
}

/// A log has a journal exactly when each of its generations is a run of
/// well-formed records.
pub proof fn lemma_journal_readable(gens: Seq<GenerationView>)
    ensures
        journal(gens) is Some <==> readable(gens),
    decreases gens.len(),
{
    if gens.len() > 0 {
        let before = gens.drop_last();
        lemma_journal_readable(before);
        if readable(gens) {
            assert forall|i: int| 0 <= i < before.len() implies records(
                (#[trigger] before[i]).bytes,
            ) is Some by {
                assert(before[i] == gens[i]);
            }
            assert(gens.last() == gens[gens.len() - 1]);
        }
        if journal(gens) is Some {
            assert forall|i: int| 0 <= i < gens.len() implies records(
                (#[trigger] gens[i]).bytes,
            ) is Some by {
                if i < before.len() {
                    assert(before[i] == gens[i]);
                }
            }
        }
    }
}

/// Appending the record of a command to the last generation appends that
/// record to the journal.
pub proof fn lemma_journal_append(gens: Seq<GenerationView>, c: CommandView)
    requires
        gens.len() > 0,
        journal(gens) is Some,
        c.well_sized(),
    ensures
        ({
            let last = gens.last();
            let grown = gens.update(
                gens.len() - 1,
                GenerationView { id: last.id, bytes: last.bytes + c.bytes() },
            );
            journal(grown) == Some(
                journal(gens).unwrap().push(locate_one(last.id, appended_span(last.bytes, c))),
            )
        }),
{
    let last = gens.last();
    let grown = gens.update(
        gens.len() - 1,
        GenerationView { id: last.id, bytes: last.bytes + c.bytes() },
    );
    let added = appended_span(last.bytes, c);
    assert(grown.drop_last() =~= gens.drop_last());
    lemma_records_append(last.bytes, 0, c);
    let spans = records(last.bytes).unwrap();
    let before = journal(gens.drop_last()).unwrap();
    assert(locate(last.id, spans.push(added)) =~= locate(last.id, spans).push(
        locate_one(last.id, added),
    ));
    assert(before + locate(last.id, spans).push(locate_one(last.id, added)) =~= (before + locate(
        last.id,
        spans,
    )).push(locate_one(last.id, added)));
}

/// A new generation without bytes adds nothing to the journal.
pub proof fn lemma_journal_open(gens: Seq<GenerationView>, id: u64)
    requires
        journal(gens) is Some,
    ensures
        journal(gens.push(GenerationView { id, bytes: Seq::empty() })) == journal(gens),
{
    let grown = gens.push(GenerationView { id, bytes: Seq::empty() });
    assert(grown.drop_last() =~= gens);
    assert(locate(id, Seq::<Span>::empty()) =~= Seq::<Located>::empty());
    assert(journal(gens).unwrap() + Seq::<Located>::empty() =~= journal(gens).unwrap());
}

/// The journal of two runs of generations in a row is the journal of the
/// first followed by the journal of the second.
pub proof fn lemma_journal_concat(a: Seq<GenerationView>, b: Seq<GenerationView>)
    ensures
        journal(a + b) == match (journal(a), journal(b)) {
            (Some(x), Some(y)) => Some(x + y),
            _ => None::<Seq<Located>>,
        },
    decreases b.len(),
{
    if b.len() == 0 {
        assert(a + b =~= a);
        if journal(a) is Some {
            assert(journal(a).unwrap() + Seq::<Located>::empty() =~= journal(a).unwrap());
        }
    } else {
        lemma_journal_concat(a, b.drop_last());
        assert((a + b).drop_last() =~= a + b.drop_last());
        assert((a + b).last() == b.last());
        match (journal(a), journal(b.drop_last()), records(b.last().bytes)) {
            (Some(x), Some(y), Some(spans)) => {
                let tail = locate(b.last().id, spans);
                assert((x + y) + tail =~= x + (y + tail));
            },
            _ => {},
        }
    }
}

/// Each record of the journal is read back, in the generation that its place
/// names, at the offset that its place names.
pub proof fn lemma_journal_parse(gens: Seq<GenerationView>, m: int)
    requires
        fits(gens),
        journal(gens) is Some,
        0 <= m < journal(gens).unwrap().len(),
    ensures
        ({
            let rec = journal(gens).unwrap()[m];
            exists|i: int|
                0 <= i < gens.len() && (#[trigger] gens[i]).id == rec.at.gen && parse_command(
                    gens[i].bytes,
                    rec.at.pos as int,
                ) == Some((rec.cmd, rec.at.pos + rec.at.len))
        }),
    decreases gens.len(),
{
    let before = journal(gens.drop_last()).unwrap();
    let spans = records(gens.last().bytes).unwrap();
    let rec = journal(gens).unwrap()[m];
    if m < before.len() {
        assert(fits(gens.drop_last())) by {
            assert forall|i: int| 0 <= i < gens.drop_last().len() implies (
            #[trigger] gens.drop_last()[i]).bytes.len() <= u64::MAX by {
                assert(gens.drop_last()[i] == gens[i]);
            }
        }
        lemma_journal_parse(gens.drop_last(), m);
        let i = choose|i: int|
            0 <= i < gens.drop_last().len() && (#[trigger] gens.drop_last()[i]).id == rec.at.gen
                && parse_command(gens.drop_last()[i].bytes, rec.at.pos as int) == Some(
                (rec.cmd, rec.at.pos + rec.at.len),
            );
        assert(gens[i] == gens.drop_last()[i]);
    } else {
        let n = m - before.len();
        lemma_records_parse(gens.last().bytes, 0, n);
        let i = gens.len() - 1;
        assert(gens[i].bytes.len() <= u64::MAX);
        assert(rec == locate_one(gens.last().id, spans[n]));
        assert(gens[i].id == rec.at.gen);
    }
}

/// Replaying one more record is one more application.
pub proof fn lemma_replay_push(st: Replayed, recs: Seq<Located>, rec: Located)
    ensures
        replay_onto(st, recs.push(rec)) == apply(replay_onto(st, recs), rec),
{
    assert(recs.push(rec).drop_last() =~= recs);
}

/// Replaying two runs in a row is replaying the second onto the first.
pub proof fn lemma_replay_concat(st: Replayed, a: Seq<Located>, b: Seq<Located>)
    ensures
        replay_onto(st, a + b) == replay_onto(replay_onto(st, a), b),
    decreases b.len(),
{
    if b.len() == 0 {
        assert(a + b =~= a);
    } else {
        lemma_replay_concat(st, a, b.drop_last());
        assert((a + b).drop_last() =~= a + b.drop_last());
        assert((a + b).last() == b.last());
    }
}

/// The index and the contents always hold the same keys.
pub proof fn lemma_replay_domains(recs: Seq<Located>)
    ensures
        replay(recs).index.dom() == replay(recs).contents.dom(),
    decreases recs.len(),
{
    if recs.len() > 0 {
        lemma_replay_domains(recs.drop_last());
        let before = replay(recs.drop_last());
        assert(replay(recs).index.dom() =~= replay(recs).contents.dom());
    } else {
        assert(blank().index.dom() =~= blank().contents.dom());
    }
}

/// Every key of the index points at a `Put` record of the journal that holds
/// the key and its present value.
pub proof fn lemma_replay_source(recs: Seq<Located>, key: Seq<char>)
    requires
        replay(recs).index.contains_key(key),
    ensures
        replay(recs).contents.contains_key(key),
        exists|m: int|
            0 <= m < recs.len() && (#[trigger] recs[m]).at == replay(recs).index[key]
                && recs[m].cmd == (CommandView::Put {
                key,
                value: replay(recs).contents[key],
            }),
    decreases recs.len(),
{
    lemma_replay_domains(recs);
    assert(replay(recs).contents.dom().contains(key));
    if recs.len() > 0 {
        let before = recs.drop_last();
        let last = recs.last();
        let m = recs.len() - 1;
        if last.cmd is Put && last.cmd->Put_key == key {
            assert(recs[m].at == replay(recs).index[key]);
        } else {
            assert(replay(before).index.contains_key(key));
            lemma_replay_source(before, key);
            let w = choose|w: int|
                0 <= w < before.len() && (#[trigger] before[w]).at == replay(before).index[key]
                    && before[w].cmd == (CommandView::Put {
                    key,
                    value: replay(before).contents[key],
                });
            assert(recs[w] == before[w]);
        }
    }
}

/// Each key of the index of a log points at a record that lies in the log,
/// is a `Put` of that key, and holds the key's present value.
pub proof fn lemma_live_record(gens: Seq<GenerationView>, key: Seq<char>)
    requires
        fits(gens),
        journal(gens) is Some,
        replay(journal(gens).unwrap()).index.contains_key(key),
    ensures
        ({
            let st = replay(journal(gens).unwrap());
            &&& st.contents.contains_key(key)
            &&& exists|i: int|
                0 <= i < gens.len() && (#[trigger] gens[i]).id == st.index[key].gen
                    && parse_command(gens[i].bytes, st.index[key].pos as int) == Some(
                    (
                        CommandView::Put { key, value: st.contents[key] },
                        st.index[key].pos + st.index[key].len,
                    ),
                )
        }),
{
    let recs = journal(gens).unwrap();
    lemma_replay_source(recs, key);
    let m = choose|m: int|
        0 <= m < recs.len() && (#[trigger] recs[m]).at == replay(recs).index[key] && recs[m].cmd
            == (CommandView::Put { key, value: replay(recs).contents[key] });
    lemma_journal_parse(gens, m);
}

/// Whatever the state that a run of records is replayed onto, the pairs that
/// replaying it from nothing yields are among those that result.
pub proof fn lemma_replay_within(st: Replayed, recs: Seq<Located>)
    ensures
        within(replay(recs).contents, replay_onto(st, recs).contents),
    decreases recs.len(),
{
    if recs.len() > 0 {
        lemma_replay_within(st, recs.drop_last());
    }
}

/// Replaying records that restate pairs of `contents` onto a state whose
/// pairs are among those of `contents` yields pairs that are among those of
/// `contents` and that hold the key of each of the records.
pub proof fn lemma_replay_restated(
    st: Replayed,
    recs: Seq<Located>,
    contents: Map<Seq<char>, Seq<char>>,
)
    requires
        within(st.contents, contents),
        forall|m: int| 0 <= m < recs.len() ==> restates(#[trigger] recs[m], contents),
    ensures
        within(replay_onto(st, recs).contents, contents),
        within(st.contents, replay_onto(st, recs).contents),
        forall|m: int|
            0 <= m < recs.len() ==> replay_onto(st, recs).contents.contains_key(
                (#[trigger] recs[m]).cmd.key(),
            ),
    decreases recs.len(),
{
    if recs.len() > 0 {
        let shorter = recs.drop_last();
        assert forall|m: int| 0 <= m < shorter.len() implies restates(
            #[trigger] shorter[m],
            contents,
        ) by {
            assert(shorter[m] == recs[m]);
        }
        lemma_replay_restated(st, shorter, contents);
        assert(restates(recs[recs.len() - 1], contents));
        assert forall|m: int| 0 <= m < recs.len() implies replay_onto(
            st,
            recs,
        ).contents.contains_key((#[trigger] recs[m]).cmd.key()) by {
            if m < shorter.len() {
                assert(shorter[m] == recs[m]);
            }
        }
    }
}

} // verus!

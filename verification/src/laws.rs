//! What holds of the store across several operations.
//!
//! The first three laws speak of `outcome`, which says what a request does to
//! the pairs that an engine holds and what the engine answers; the contracts
//! of `KvStore` and of `handle_request` are stated over the same functions.

use vstd::prelude::*;
use crate::command::{lemma_parse_command_complete, parse_command, CommandView};
use crate::error::KvsError;
use crate::effects::{
    apply_effect, apply_effects, lemma_effects_concat, lemma_effects_push, lemma_removals,
    removals, LogEffectView,
};
use crate::directory::{lemma_ascending_unique, DirectoryImage};
use crate::engine::value_of;
use crate::kv::{compacted, compaction_effects, opened, KvStore, Limits};
use crate::log::{
    ascending, fits, journal, lemma_journal_concat, lemma_journal_open,
    lemma_journal_readable, lemma_replay_concat, lemma_replay_domains, lemma_replay_restated,
    lemma_replay_source, lemma_replay_within, replay, replay_onto, restates, views, within,
    blank, GenerationView, Located,
};
use crate::accounting::{
    lemma_journal_accounting, lemma_log_bytes, live_bytes, log_bytes, record_lengths,
};
use crate::net::{RequestView, ResponseView};
use crate::server::outcome;

verus! {

/// Whatever a store holds, once `value` is set for `key`, the key's value is
/// `value`.
pub proof fn law_get_after_set(
    contents: Map<Seq<char>, Seq<char>>,
    key: Seq<char>,
    value: Seq<char>,
)
    ensures
        ({
            let (set, after) = outcome(contents, RequestView::Put { key, value });
            &&& set == ResponseView::Put
            &&& after == contents.insert(key, value)
            &&& value_of(after, key) == Some(value)
            &&& outcome(after, RequestView::Get { key }) == (
                ResponseView::Get { value: Some(value) },
                after,
            )
        }),
{
}

/// Of two values set for one key, the second is the key's value.
pub proof fn law_second_set_wins(
    contents: Map<Seq<char>, Seq<char>>,
    key: Seq<char>,
    first: Seq<char>,
    second: Seq<char>,
)
    ensures
        ({
            let once = outcome(contents, RequestView::Put { key, value: first }).1;
            let twice = outcome(once, RequestView::Put { key, value: second }).1;
            &&& twice == contents.insert(key, second)
            &&& outcome(twice, RequestView::Get { key }).0 == ResponseView::Get {
                value: Some(second),
            }
        }),
{
    let once = contents.insert(key, first);
    assert(once.insert(key, second) =~= contents.insert(key, second));
}

/// A key that is set and then removed has no value, and removing it once
/// more fails with the message of `BadRemovalError` and changes nothing.
pub proof fn law_remove_after_set(
    contents: Map<Seq<char>, Seq<char>>,
    key: Seq<char>,
    value: Seq<char>,
)
    ensures
        ({
            let held = outcome(contents, RequestView::Put { key, value }).1;
            let (removal, gone) = outcome(held, RequestView::Remove { key });
            &&& removal == ResponseView::Remove
            &&& gone == contents.remove(key)
            &&& outcome(gone, RequestView::Get { key }) == (
                ResponseView::Get { value: None },
                gone,
            )
            &&& outcome(gone, RequestView::Remove { key }) == (
                ResponseView::Error { message: KvsError::BadRemovalError.message_spec() },
                gone,
            )
        }),
{
    assert(contents.insert(key, value).remove(key) =~= contents.remove(key));
}

/// A store that is opened on the generations of another store holds the same
/// index, the same count of stale bytes and the same pairs as that store: to
/// close a store and open it again on the same files loses nothing.
pub proof fn law_reopen(
    store: KvStore,
    dir: DirectoryImage,
    limits: Limits,
    r: Result<KvStore, KvsError>,
)
    requires
        store.wf(),
        dir.is_directory,
        views(dir.generations@) == store.generations(),
        opened(dir, limits, r),
    ensures
        r is Ok,
        r.unwrap().wf(),
        r.unwrap().generations() == store.generations(),
        r.unwrap().index() == store.index(),
        r.unwrap().stale_bytes() == store.stale_bytes(),
        r.unwrap()@ == store@,
{
    let gens = store.generations();
    lemma_journal_readable(gens);
    if r is Ok {
        lemma_ascending_unique(gens, r.unwrap().persisted());
    }
}

/// Every byte of a log belongs to a record that is either stale or the
/// record of a live key: the stale bytes and the bytes of the live records
/// are, together, the bytes that the generations hold.
pub proof fn law_stale_and_live_bytes(gens: Seq<GenerationView>)
    requires
        fits(gens),
        journal(gens) is Some,
    ensures
        ({
            let state = replay(journal(gens).unwrap());
            state.stale + live_bytes(state.index) == log_bytes(gens)
        }),
{
    lemma_log_bytes(gens);
    lemma_journal_accounting(journal(gens).unwrap());
}

/// Compaction changes no value, leaves no stale byte, and leaves the record
/// of each live key as long as it was. The generations then hold the bytes of
/// the live records and nothing else, which is no more than they held.
pub proof fn law_compaction(before: Seq<GenerationView>, after: Seq<GenerationView>)
    requires
        fits(before),
        fits(after),
        journal(before) is Some,
        compacted(before, after),
    ensures
        ({
            let was = replay(journal(before).unwrap());
            let now = replay(journal(after).unwrap());
            &&& forall|key: Seq<char>|
                value_of(now.contents, key) == #[trigger] value_of(was.contents, key)
            &&& now.stale == 0
            &&& record_lengths(now.index) == record_lengths(was.index)
            &&& live_bytes(now.index) == live_bytes(was.index)
            &&& log_bytes(after) == live_bytes(was.index)
            &&& log_bytes(after) <= log_bytes(before)
        }),
{
    let was = replay(journal(before).unwrap());
    let now = replay(journal(after).unwrap());
    assert(record_lengths(now.index) =~= record_lengths(was.index)) by {
        assert forall|key: Seq<char>| record_lengths(now.index).contains_key(key) implies (
        #[trigger] record_lengths(now.index)[key]) == record_lengths(was.index)[key] by {
            assert(now.index.contains_key(key));
        }
    }
    law_stale_and_live_bytes(before);
    law_stale_and_live_bytes(after);
}

/// The pairs that replaying `tail` onto the pairs of `head` yields are those
/// of `contents`, where the pairs of `head` are among those of `contents` and
/// `tail` restates each pair of `contents`.
proof fn lemma_restated_contents(
    head: Seq<Located>,
    tail: Seq<Located>,
    contents: Map<Seq<char>, Seq<char>>,
)
    requires
        within(replay(head).contents, contents),
        forall|m: int| 0 <= m < tail.len() ==> restates(#[trigger] tail[m], contents),
        replay(tail).contents == contents,
    ensures
        replay(head + tail).contents == contents,
{
    lemma_replay_concat(blank(), head, tail);
    lemma_replay_restated(replay(head), tail, contents);
    lemma_replay_domains(tail);
    let result = replay_onto(replay(head), tail).contents;
    assert forall|k: Seq<char>| contents.contains_key(k) implies result.contains_key(k) by {
        assert(replay(tail).index.contains_key(k));
        lemma_replay_source(tail, k);
        let m = choose|m: int|
            0 <= m < tail.len() && (#[trigger] tail[m]).at == replay(tail).index[k] && tail[m].cmd
                == (CommandView::Put { key: k, value: replay(tail).contents[k] });
        assert(tail[m].cmd.key() == k);
    }
    assert(result =~= contents);
}

/// Compaction survives a crash between any two of its effects: the
/// generations as they stand when only the first `n` effects are applied are
/// a log again, and replaying it yields the pairs that the store held.
pub proof fn law_compaction_survives_a_crash(
    before: Seq<GenerationView>,
    after: Seq<GenerationView>,
    n: int,
)
    requires
        before.len() > 0,
        ascending(before),
        journal(before) is Some,
        before.last().id <= u64::MAX - 2,
        compacted(before, after),
        0 <= n <= compaction_effects(before, after).len(),
    ensures
        ({
            let disk = apply_effects(before, compaction_effects(before, after).subrange(0, n));
            &&& ascending(disk)
            &&& journal(disk) is Some
            &&& replay(journal(disk).unwrap()).contents == replay(
                journal(before).unwrap(),
            ).contents
        }),
{
    let effects = compaction_effects(before, after);
    let head = seq![effects[0], effects[1], effects[2]];
    let was = replay(journal(before).unwrap()).contents;
    let copied = journal(after).unwrap();
    let first = after[0];
    let second = after[1];
    let empty_first = GenerationView { id: first.id, bytes: Seq::empty() };
    assert(effects =~= head + removals(before));
    assert forall|i: int| 0 <= i < before.len() implies (#[trigger] before[i]).id < first.id by {
        if i < before.len() - 1 {
            assert(before[i].id < before[before.len() - 1].id);
        }
    }
    // The journal of the new generation alone is the journal of the compaction.
    let one = seq![first];
    assert(after =~= one.push(second));
    assert(after.drop_last() =~= one);
    assert(journal(one) is Some);
    lemma_journal_open(one, second.id);
    assert(journal(one) == Some(copied));
    lemma_replay_within(blank(), journal(before).unwrap());
    if n == 0 {
        assert(effects.subrange(0, n) =~= Seq::<LogEffectView>::empty());
    } else if n == 1 {
        assert(effects.subrange(0, n) =~= Seq::<LogEffectView>::empty().push(effects[0]));
        lemma_effects_push(before, Seq::<LogEffectView>::empty(), effects[0]);
        let disk = before.push(empty_first);
        lemma_journal_open(before, first.id);
        assert(ascending(disk));
    } else {
        let filled = before.push(first);
        assert(filled =~= before + one);
        lemma_effects_push(before, Seq::<LogEffectView>::empty(), effects[0]);
        lemma_effects_push(before, seq![effects[0]], effects[1]);
        assert(Seq::<LogEffectView>::empty().push(effects[0]) =~= seq![effects[0]]);
        assert(seq![effects[0]].push(effects[1]) =~= seq![effects[0], effects[1]]);
        assert(Seq::<u8>::empty() + first.bytes =~= first.bytes);
        assert(apply_effect(before.push(empty_first), effects[1]) =~= filled);
        assert(apply_effects(before, seq![effects[0], effects[1]]) == filled);
        lemma_journal_concat(before, one);
        lemma_restated_contents(journal(before).unwrap(), copied, was);
        assert(ascending(filled));
        if n == 2 {
            assert(effects.subrange(0, n) =~= seq![effects[0], effects[1]]);
        } else {
            let whole = filled.push(second);
            assert(whole =~= before + after);
            lemma_effects_push(before, seq![effects[0], effects[1]], effects[2]);
            assert(seq![effects[0], effects[1]].push(effects[2]) =~= head);
            assert(apply_effects(before, head) == whole);
            let m = n - 3;
            let gone = before.subrange(0, m);
            let left = before.subrange(m, before.len() as int);
            let dropped = removals(before).subrange(0, m);
            assert(dropped =~= removals(gone));
            assert(effects.subrange(0, n) =~= head + dropped);
            lemma_effects_concat(before, head, dropped);
            assert(whole =~= gone + (left + after));
            lemma_removals(gone, left + after);
            let disk = left + after;
            assert(before =~= gone + left);
            lemma_journal_concat(gone, left);
            lemma_journal_concat(left, after);
            let early = journal(gone).unwrap();
            let late = journal(left).unwrap();
            lemma_replay_concat(blank(), early, late);
            lemma_replay_within(replay(early), late);
            lemma_restated_contents(late, copied, was);
            assert forall|i: int, j: int| 0 <= i < j < disk.len() implies disk[i].id
                < disk[j].id by {
                if j < left.len() {
                    assert(left[i] == before[m + i] && left[j] == before[m + j]);
                } else if i < left.len() {
                    assert(left[i] == before[m + i]);
                }
            }
        }
    }
}

/// A record that is written and read back is the command again, and the
/// reading ends where the record ends.
pub proof fn law_record_round_trip(command: CommandView)
    requires
        command.well_sized(),
    ensures
        parse_command(command.bytes(), 0) == Some((command, command.bytes().len() as int)),
{
    let form = command.bytes();
    assert(form.subrange(0, form.len() as int) =~= form);
    lemma_parse_command_complete(form, 0, command);
}

/// The key that a request is about.
pub open spec fn key_of(request: RequestView) -> Seq<char> {
    match request {
        RequestView::Get { key } => key,
        RequestView::Put { key, .. } => key,
        RequestView::Remove { key } => key,
    }
}

/// Two requests about different keys do not touch each other: each gets the
/// response that it would get without the other, and the pairs held in the
/// end do not depend on which of the two came first.
pub proof fn law_different_keys_commute(
    contents: Map<Seq<char>, Seq<char>>,
    one: RequestView,
    other: RequestView,
)
    requires
        key_of(one) != key_of(other),
    ensures
        outcome(outcome(contents, one).1, other).0 == outcome(contents, other).0,
        outcome(outcome(contents, other).1, one).0 == outcome(contents, one).0,
        outcome(outcome(contents, one).1, other).1 == outcome(outcome(contents, other).1, one).1,
{
    let first = outcome(outcome(contents, one).1, other).1;
    let second = outcome(outcome(contents, other).1, one).1;
    assert(first =~= second);
}

} // verus!

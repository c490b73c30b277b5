//! The bytes of the log, counted: every byte belongs to a record that is
//! either live or stale.

use vstd::prelude::*;
use vstd::set::fold::{is_fun_commutative, lemma_fold_empty, lemma_fold_insert};
use crate::command::{parse_command, CommandView};
use crate::log::{
    fits, journal, locate, locate_one, records, records_from, replay, GenerationView, Located,
    LogPointer, Span,
};

verus! {

/// For each live key, the length of its record.
pub open spec fn record_lengths(index: Map<Seq<char>, LogPointer>) -> Map<Seq<char>, nat> {
    index.map_values(|place: LogPointer| place.len as nat)
}

/// The function that adds to a sum the length that `lengths` holds for a key.
pub open spec fn adder(lengths: Map<Seq<char>, nat>) -> spec_fn(nat, Seq<char>) -> nat {
    |sum: nat, key: Seq<char>| sum + lengths[key]
}

/// The sum of the lengths that `lengths` holds.
pub open spec fn sum_of(lengths: Map<Seq<char>, nat>) -> nat {
    lengths.dom().fold(0nat, adder(lengths))
}

/// The bytes that the records of the live keys take, all together.
pub open spec fn live_bytes(index: Map<Seq<char>, LogPointer>) -> nat {
    sum_of(record_lengths(index))
}

/// The bytes that the records of a journal take, all together.
pub open spec fn journal_bytes(recs: Seq<Located>) -> nat
    decreases recs.len(),
{
    if recs.len() == 0 {
        0
    } else {
        journal_bytes(recs.drop_last()) + recs.last().at.len as nat
    }
}

/// The bytes that the generations of a log hold, all together.
pub open spec fn log_bytes(gens: Seq<GenerationView>) -> nat
    decreases gens.len(),
{
    if gens.len() == 0 {
        0
    } else {
        log_bytes(gens.drop_last()) + gens.last().bytes.len()
    }
}

/// Sums over the same keys of lengths that agree on those keys are equal.
proof fn lemma_sums_agree(
    keys: Set<Seq<char>>,
    one: Map<Seq<char>, nat>,
    other: Map<Seq<char>, nat>,
)
    requires
        keys.finite(),
        forall|k: Seq<char>| keys.contains(k) ==> one[k] == other[k],
    ensures
        keys.fold(0nat, adder(one)) == keys.fold(0nat, adder(other)),
    decreases keys.len(),
{
    if keys.len() == 0 {
        assert(keys =~= Set::<Seq<char>>::empty());
        lemma_fold_empty(0nat, adder(one));
        lemma_fold_empty(0nat, adder(other));
    } else {
        let k = keys.choose();
        let rest = keys.remove(k);
        lemma_sums_agree(rest, one, other);
        assert(keys =~= rest.insert(k));
        assert(is_fun_commutative(adder(one)));
        assert(is_fun_commutative(adder(other)));
        lemma_fold_insert(rest, 0nat, adder(one), k);
        lemma_fold_insert(rest, 0nat, adder(other), k);
    }
}

/// The sum after a length is set for a key is the sum without the key, plus
/// that length.
proof fn lemma_sum_insert(lengths: Map<Seq<char>, nat>, key: Seq<char>, len: nat)
    requires
        lengths.dom().finite(),
    ensures
        sum_of(lengths.insert(key, len)) == sum_of(lengths.remove(key)) + len,
{
    let rest = lengths.remove(key);
    let more = lengths.insert(key, len);
    assert(more.dom() =~= rest.dom().insert(key));
    assert(is_fun_commutative(adder(more)));
    lemma_fold_insert(rest.dom(), 0nat, adder(more), key);
    lemma_sums_agree(rest.dom(), more, rest);
}

/// The sum with a key is the sum without the key, plus the key's length.
proof fn lemma_sum_remove(lengths: Map<Seq<char>, nat>, key: Seq<char>)
    requires
        lengths.dom().finite(),
    ensures
        sum_of(lengths) == sum_of(lengths.remove(key)) + if lengths.contains_key(key) {
            lengths[key]
        } else {
            0nat
        },
{
    if lengths.contains_key(key) {
        assert(lengths =~= lengths.insert(key, lengths[key]));
        lemma_sum_insert(lengths, key, lengths[key]);
    } else {
        assert(lengths.remove(key) =~= lengths);
    }
}

/// The index of a journal holds finitely many keys, and the stale bytes and
/// the bytes of the live records are, together, the bytes of the journal.
pub proof fn lemma_journal_accounting(recs: Seq<Located>)
    ensures
        replay(recs).index.dom().finite(),
        replay(recs).stale + live_bytes(replay(recs).index) == journal_bytes(recs),
    decreases recs.len(),
{
    if recs.len() == 0 {
        assert(record_lengths(replay(recs).index).dom() =~= Set::<Seq<char>>::empty());
        lemma_fold_empty(0nat, adder(record_lengths(replay(recs).index)));
    } else {
        let before = replay(recs.drop_last());
        let rec = recs.last();
        lemma_journal_accounting(recs.drop_last());
        let lengths = record_lengths(before.index);
        assert(lengths.dom() =~= before.index.dom());
        let key = rec.cmd.key();
        lemma_sum_remove(lengths, key);
        match rec.cmd {
            CommandView::Put { key, value } => {
                assert(record_lengths(before.index.insert(key, rec.at)) =~= lengths.insert(
                    key,
                    rec.at.len as nat,
                ));
                lemma_sum_insert(lengths, key, rec.at.len as nat);
            },
            CommandView::Remove { key } => {
                assert(record_lengths(before.index.remove(key)) =~= lengths.remove(key));
            },
        }
    }
}

/// The bytes of two journals in a row are the bytes of either, added.
pub proof fn lemma_journal_bytes_concat(a: Seq<Located>, b: Seq<Located>)
    ensures
        journal_bytes(a + b) == journal_bytes(a) + journal_bytes(b),
    decreases b.len(),
{
    if b.len() == 0 {
        assert(a + b =~= a);
    } else {
        lemma_journal_bytes_concat(a, b.drop_last());
        assert((a + b).drop_last() =~= a + b.drop_last());
        assert((a + b).last() == b.last());
    }
}

/// The records of a generation take all of its bytes from the position that
/// they are read from.
pub proof fn lemma_records_bytes(id: u64, bytes: Seq<u8>, at: int)
    requires
        0 <= at <= bytes.len() <= u64::MAX,
        records_from(bytes, at) is Some,
    ensures
        journal_bytes(locate(id, records_from(bytes, at).unwrap())) == bytes.len() - at,
    decreases bytes.len() - at,
{
    let spans = records_from(bytes, at).unwrap();
    if at == bytes.len() {
        assert(locate(id, spans) =~= Seq::<Located>::empty());
    } else {
        let (cmd, end) = parse_command(bytes, at).unwrap();
        let rest = records_from(bytes, end).unwrap();
        let first = Span { start: at, end, cmd };
        lemma_records_bytes(id, bytes, end);
        assert(locate(id, spans) =~= seq![locate_one(id, first)] + locate(id, rest));
        lemma_journal_bytes_concat(seq![locate_one(id, first)], locate(id, rest));
        let one = seq![locate_one(id, first)];
        assert(at < end <= bytes.len());
        assert(one.drop_last() =~= Seq::<Located>::empty());
        assert(journal_bytes(one.drop_last()) == 0);
        assert(one.last().at.len == end - at);
        assert(journal_bytes(one) == (end - at) as nat);
    }
}

/// The records of a log take all of its bytes.
pub proof fn lemma_log_bytes(gens: Seq<GenerationView>)
    requires
        fits(gens),
        journal(gens) is Some,
    ensures
        journal_bytes(journal(gens).unwrap()) == log_bytes(gens),
    decreases gens.len(),
{
    if gens.len() > 0 {
        let shorter = gens.drop_last();
        assert forall|i: int| 0 <= i < shorter.len() implies (#[trigger] shorter[i]).bytes.len()
            <= u64::MAX by {
            assert(shorter[i] == gens[i]);
        }
        lemma_log_bytes(shorter);
        let last = gens.last();
        assert(last == gens[gens.len() - 1]);
        lemma_records_bytes(last.id, last.bytes, 0);
        lemma_journal_bytes_concat(
            journal(shorter).unwrap(),
            locate(last.id, records(last.bytes).unwrap()),
        );
    }
}

} // verus!

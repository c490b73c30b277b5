//! The changes to the generations that the store queues for whoever keeps
//! them on disk.

use vstd::prelude::*;
use crate::log::GenerationView;

verus! {

/// One change to the generations, for whoever keeps them on disk.
#[derive(Debug)]
pub enum LogEffect {
    /// A new generation without bytes comes into being.
    Create { gen: u64 },
    /// Bytes are appended to the generation, which is the last one.
    Append { gen: u64, bytes: Vec<u8> },
    /// The generation is deleted.
    Remove { gen: u64 },
}

/// What a `LogEffect` stands for in specifications.
pub enum LogEffectView {
    Create { gen: u64 },
    Append { gen: u64, bytes: Seq<u8> },
    Remove { gen: u64 },
}

impl View for LogEffect {
    type V = LogEffectView;

    open spec fn view(&self) -> LogEffectView {
        match self {
            LogEffect::Create { gen } => LogEffectView::Create { gen: *gen },
            LogEffect::Append { gen, bytes } => LogEffectView::Append { gen: *gen, bytes: bytes@ },
            LogEffect::Remove { gen } => LogEffectView::Remove { gen: *gen },
        }
    }
}

/// The views of a run of effects.
pub open spec fn effect_views(effects: Seq<LogEffect>) -> Seq<LogEffectView> {
    Seq::new(effects.len(), |i: int| effects[i]@)
}

/// The generations that are left when the first one with the identifier
/// `id` is deleted.
pub open spec fn without(gens: Seq<GenerationView>, id: u64) -> Seq<GenerationView>
    decreases gens.len(),
{
    if gens.len() == 0 {
        gens
    } else if gens[0].id == id {
        gens.drop_first()
    } else {
        seq![gens[0]] + without(gens.drop_first(), id)
    }
}

/// The effects that delete each of `gens`, first one first.
pub open spec fn removals(gens: Seq<GenerationView>) -> Seq<LogEffectView> {
    Seq::new(gens.len(), |i: int| LogEffectView::Remove { gen: gens[i].id })
}

/// The generations after one effect.
pub open spec fn apply_effect(gens: Seq<GenerationView>, effect: LogEffectView) -> Seq<
    GenerationView,
> {
    match effect {
        LogEffectView::Create { gen } => gens.push(GenerationView { id: gen, bytes: Seq::empty() }),
        LogEffectView::Append { gen, bytes } => if gens.len() > 0 && gens.last().id == gen {
            gens.update(
                gens.len() - 1,
                GenerationView { id: gen, bytes: gens.last().bytes + bytes },
            )
        } else {
            gens
        },
        LogEffectView::Remove { gen } => without(gens, gen),
    }
}

/// The generations after a run of effects, applied in order.
pub open spec fn apply_effects(gens: Seq<GenerationView>, effects: Seq<LogEffectView>) -> Seq<
    GenerationView,
>
    decreases effects.len(),
{
    if effects.len() == 0 {
        gens
    } else {
        apply_effect(apply_effects(gens, effects.drop_last()), effects.last())
    }
}

/// Appending an effect to a queue applies it last.
pub proof fn lemma_effects_push(
    gens: Seq<GenerationView>,
    effects: Seq<LogEffectView>,
    effect: LogEffectView,
)
    ensures
        apply_effects(gens, effects.push(effect)) == apply_effect(
            apply_effects(gens, effects),
            effect,
        ),
{
    assert(effects.push(effect).drop_last() =~= effects);
}

/// Applying one run of effects and then another is applying the two in a
/// row.
pub proof fn lemma_effects_concat(
    gens: Seq<GenerationView>,
    first: Seq<LogEffectView>,
    second: Seq<LogEffectView>,
)
    ensures
        apply_effects(gens, first + second) == apply_effects(apply_effects(gens, first), second),
    decreases second.len(),
{
    if second.len() == 0 {
        assert(first + second =~= first);
    } else {
        lemma_effects_concat(gens, first, second.drop_last());
        assert((first + second).drop_last() =~= first + second.drop_last());
        assert((first + second).last() == second.last());
    }
}

/// Deleting the first generations of a log one by one leaves the others.
pub proof fn lemma_removals(gone: Seq<GenerationView>, kept: Seq<GenerationView>)
    ensures
        apply_effects(gone + kept, removals(gone)) == kept,
    decreases gone.len(),
{
    if gone.len() == 0 {
        assert(gone + kept =~= kept);
        assert(removals(gone) =~= Seq::<LogEffectView>::empty());
    } else {
        let shorter = gone.drop_last();
        let last = gone.last();
        let rest = seq![last] + kept;
        assert(gone + kept =~= shorter + rest);
        lemma_removals(shorter, rest);
        assert(removals(gone).drop_last() =~= removals(shorter));
        assert(removals(gone).last() == LogEffectView::Remove { gen: last.id });
        assert(rest[0] == last);
        assert(rest.drop_first() =~= kept);
    }
}

} // verus!

//! The current playground: the random pattern of the fixed seed, assembled.
use vstd::prelude::*;
use crate::generate::{
    built, create_random_pattern, is_short_sine, is_sound, lemma_grown_notes_sound,
    lemma_grown_plays, lemma_grown_sines_fit, lemma_grown_sines_short, lemma_grown_well_timed,
    Built,
};
use crate::pattern::{
    assemble_pattern, assembled, kinds_all, lemma_assembled_kinds, lemma_notes_within_span,
    lemma_reach_within_span, lemma_sines_end_within_span, model, notes_model, sines_end_by,
    starts_within, NoteKind, ScheduledNote,
};
use crate::random::SeededGenerator;

verus! {

/// The seed of the playground's generator.
pub const PLAYGROUND_SEED: u32 = 35;

/// The playground's span: 128 seconds, in ticks of 2^-54 seconds.
pub const PLAYGROUND_SPAN: u64 = 0x2000_0000_0000_0000;

/// What the playground plays: the notes, placed at tick zero, of the pattern
/// that the generator keyed with `PLAYGROUND_SEED` builds for
/// `PLAYGROUND_SPAN` ticks and one voice; `None` when that build ends
/// without a pattern (its voice count leaving `i32`, or a span to be halved
/// having an odd number of ticks).
pub open spec fn playground_notes() -> Option<Seq<(int, NoteKind)>> {
    match built(seq![PLAYGROUND_SEED], 0, PLAYGROUND_SPAN as int, 1) {
        Built::Grown { pattern, .. } => Some(assembled(pattern, 0)),
        _ => None,
    }
}

/// The notes of the playground: a random pattern of `PLAYGROUND_SPAN` ticks
/// for one voice, drawn from a ChaCha generator keyed with
/// `PLAYGROUND_SEED`, assembled at tick zero; the same on every call. There
/// is at least one note, every note starts within the span and is sound, and
/// every sine tone lasts less than a quarter second and ends within the span.
pub fn current_playground() -> (notes: Option<Vec<ScheduledNote>>)
    ensures
        match notes {
            Some(ns) => playground_notes() == Some(notes_model(ns@)),
            None => playground_notes() is None,
        },
        notes matches Some(ns) ==> {
            &&& ns@.len() >= 1
            &&& starts_within(notes_model(ns@), 0, PLAYGROUND_SPAN as int)
            &&& kinds_all(notes_model(ns@), is_sound())
            &&& kinds_all(notes_model(ns@), is_short_sine())
            &&& sines_end_by(notes_model(ns@), PLAYGROUND_SPAN as int)
        },
{
    let seed: Vec<u32> = vec![PLAYGROUND_SEED];
    assert(seed@ =~= seq![PLAYGROUND_SEED]);
    let mut generator = SeededGenerator::new(seed.as_slice());
    match create_random_pattern(PLAYGROUND_SPAN, 1, &mut generator) {
        None => None,
        Some(pattern) => {
            let ghost m = model(pattern);
            proof {
                lemma_grown_well_timed(m, PLAYGROUND_SPAN as int, 1);
                lemma_reach_within_span(m);
                lemma_notes_within_span(m, 0);
                lemma_grown_sines_fit(m, PLAYGROUND_SPAN as int, 1);
                lemma_sines_end_within_span(m, 0);
                lemma_grown_plays(m, PLAYGROUND_SPAN as int, 1, 0);
                lemma_grown_notes_sound(m, PLAYGROUND_SPAN as int, 1);
                lemma_assembled_kinds(m, 0, is_sound());
                lemma_grown_sines_short(m, PLAYGROUND_SPAN as int, 1);
                lemma_assembled_kinds(m, 0, is_short_sine());
            }
            let notes = assemble_pattern(pattern, 0);
            proof {
                assert(notes_model(notes@).len() == notes@.len());
            }
            Some(notes)
        },
    }
}

} // verus!

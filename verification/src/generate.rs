//! The random pattern generator: a span is either doubled into two voices,
//! built from halves (repeated, or offset), or played as one note. Which,
//! is fixed by the seeded stream of draws; `built` says what the generator
//! builds from it. Spans are whole numbers of ticks, so a span to be halved
//! whose tick count is odd ends the generator without a pattern.
use vstd::prelude::*;
use crate::pattern::{
    assembled, delayed_notes, lemma_assembly_delays,
    model, models, lemma_models_index, BodyModel, NoteKind, Pattern, PatternModel, PatternType,
    well_timed, parts_fit, leaves_all, parts_leaves_all, assembled_parts, sines_fit,
    parts_sines_fit,
};
use crate::random::{
    chacha_bool, chacha_range_i32, chacha_unit_bits, gen_coin, gen_range_i32, gen_unit_bits,
    SeededGenerator,
};
use crate::unit_draw::{
    exceeds_draw, exceeds_unit_draw, lemma_quarter_second_exceeds_every_draw,
    UNIT_ONE_BITS,
};
use vstd::arithmetic::power2::lemma2_to64_rest;

verus! {

/// A span of `d` ticks can be halved exactly.
pub open spec fn splittable(d: int) -> bool {
    d >= 2 && d % 2 == 0
}

/// `m` placed `delay` ticks later.
pub open spec fn delayed(m: PatternModel, delay: int) -> PatternModel {
    PatternModel { duration: m.duration, offset: m.offset + delay, body: m.body }
}

/// `m` is one of the notes that a span of `d` ticks shared by `k` voices can
/// become: a percussion hit of velocity `120 / k` on an instrument of
/// `[35, 83)`, or a sine tone of the whole span for `k` voices.
pub open spec fn is_leaf_of(m: PatternModel, d: int, k: int) -> bool {
    &&& m.duration == d
    &&& m.offset == 0
    &&& match m.body {
        BodyModel::Notes(NoteKind::Percussion { velocity, instrument }) => {
            &&& velocity == 120int / k
            &&& 35 <= instrument < 83
        },
        BodyModel::Notes(NoteKind::Sine { duration, duplicates, tone_draw }) => {
            &&& duration == d
            &&& duplicates == k
            &&& tone_draw < UNIT_ONE_BITS
        },
        _ => false,
    }
}

/// A quarter second, in ticks.
pub const QUARTER_SECOND: u64 = 0x10_0000_0000_0000;

/// `m` has the shape of every pattern that the generator builds for a span
/// of `d` ticks shared by `k` voices: a note, where the span is shorter than
/// a quarter second (every longer span exceeds each draw of `[0, 1)`); two
/// patterns of the same span for twice the voices; a pattern of half the
/// span followed by its copy delayed by half the span; or, when `k` is not
/// one, a pattern of half the span for half the voices (rounded up),
/// possibly delayed by half the span.
pub open spec fn grows_from(m: PatternModel, d: int, k: int) -> bool
    decreases d, m, 1int,
{
    if d < 0 {
        false
    } else if is_leaf_of(m, d, k) && d < QUARTER_SECOND {
        true
    } else {
        let offset_half = splittable(d) && k != 1 && k < i32::MAX && {
            ||| grows_from(m, d / 2, (k + 1) / 2)
            ||| grows_from(delayed(m, -(d / 2)), d / 2, (k + 1) / 2)
        };
        doubled_or_repeated(m, d, k) || offset_half
    }
}

/// `m` holds two patterns over the span of `d` ticks: either both can be built
/// for the span and twice the `k` voices, or the first can be built for half
/// the span and the second is its copy delayed by half the span.
pub open spec fn doubled_or_repeated(m: PatternModel, d: int, k: int) -> bool
    decreases d, m, 0int,
{
    match m.body {
        BodyModel::Assemblage(parts) => {
            &&& m.duration == d
            &&& m.offset == 0
            &&& parts.len() == 2
            &&& {
                ||| {
                    &&& 2 * k <= i32::MAX
                    &&& grows_from(parts[0], d, 2 * k)
                    &&& grows_from(parts[1], d, 2 * k)
                }
                ||| {
                    &&& splittable(d)
                    &&& grows_from(parts[0], d / 2, k)
                    &&& parts[1] == delayed(parts[0], d / 2)
                }
            }
        },
        BodyModel::Notes(_) => false,
    }
}

/// What the generator ends with: a pattern; a voice count leaving `i32`; or
/// a span to be halved whose tick count is odd, so that its halves are no
/// whole number of ticks. Each time, the number of words drawn by then.
pub enum Built {
    Grown { pattern: PatternModel, next: nat },
    Overflow { next: nat },
    TooFine { next: nat },
}

/// The number of words drawn once the generator ends with `b`.
pub open spec fn words_drawn(b: Built) -> nat {
    match b {
        Built::Grown { next, .. } => next,
        Built::Overflow { next } => next,
        Built::TooFine { next } => next,
    }
}

/// The pattern of `d` ticks that the generator keyed with `seed` builds for
/// `k` voices when `at` words have been drawn. A first draw of `[0, 3)` that
/// is zero doubles the voices and builds two patterns of the span. Else a
/// unit draw decides: when four times the span in seconds exceeds it, the
/// span is halved. The generator ends there if its tick count is odd; else a
/// coin is drawn, and on the coin or with one voice, a pattern of half the
/// span is built and followed by its copy half a span later; otherwise a
/// pattern of half the span is built for half the voices (rounded up) and a
/// second coin delays it by half the span. Otherwise the span is one note: after a draw of `[0, 3)` that is not zero, a
/// percussion hit of velocity `120 / k` on an instrument drawn from
/// `[35, 83)`; after a zero, a sine tone over the span whose pitch is a
/// further unit draw. The voice count leaving `i32` ends the generator.
pub open spec fn built(seed: Seq<u32>, at: nat, d: int, k: int) -> Built
    decreases d, i32::MAX - k,
{
    if d < 0 || d > u64::MAX || k < 1 || k > i32::MAX {
        Built::Overflow { next: at }
    } else {
        let first = chacha_range_i32(seed, at, 0, 3);
        if first.0 == 0 {
            if 2 * k > i32::MAX {
                Built::Overflow { next: first.1 }
            } else {
                match built(seed, first.1, d, 2 * k) {
                    Built::Grown { pattern: a, next: after_a } => match built(seed, after_a, d, 2 * k) {
                        Built::Grown { pattern: b, next: after_b } => Built::Grown {
                            pattern: PatternModel {
                                duration: d,
                                offset: 0,
                                body: BodyModel::Assemblage(seq![a, b]),
                            },
                            next: after_b,
                        },
                        failed => failed,
                    },
                    failed => failed,
                }
            }
        } else {
            let draw = chacha_unit_bits(seed, first.1);
            let after_draw = first.1 + 2;
            if exceeds_draw(d as u64, draw) && !splittable(d) {
                Built::TooFine { next: after_draw }
            } else if exceeds_draw(d as u64, draw) {
                let after_coin = after_draw + 1;
                if chacha_bool(seed, after_draw) || k == 1 {
                    match built(seed, after_coin, d / 2, k) {
                        Built::Grown { pattern: half, next } => Built::Grown {
                            pattern: PatternModel {
                                duration: d,
                                offset: 0,
                                body: BodyModel::Assemblage(seq![half, delayed(half, d / 2)]),
                            },
                            next,
                        },
                        failed => failed,
                    }
                } else if k == i32::MAX {
                    Built::Overflow { next: after_coin }
                } else {
                    match built(seed, after_coin, d / 2, (k + 1) / 2) {
                        Built::Grown { pattern: half, next } => Built::Grown {
                            pattern: if chacha_bool(seed, next) {
                                delayed(half, d / 2)
                            } else {
                                half
                            },
                            next: next + 1,
                        },
                        failed => failed,
                    }
                }
            } else {
                let second = chacha_range_i32(seed, after_draw, 0, 3);
                if second.0 != 0 {
                    let instrument = chacha_range_i32(seed, second.1, 35, 83);
                    Built::Grown {
                        pattern: PatternModel {
                            duration: d,
                            offset: 0,
                            body: BodyModel::Notes(
                                NoteKind::Percussion { velocity: (120int / k) as i32, instrument: instrument.0 },
                            ),
                        },
                        next: instrument.1,
                    }
                } else {
                    Built::Grown {
                        pattern: PatternModel {
                            duration: d,
                            offset: 0,
                            body: BodyModel::Notes(
                                NoteKind::Sine {
                                    duration: d as u64,
                                    duplicates: k as i32,
                                    tone_draw: chacha_unit_bits(seed, second.1),
                                },
                            ),
                        },
                        next: second.1 + 2,
                    }
                }
            }
        }
    }
}

/// A random pattern of `duration` ticks shared by `duplicates` voices, drawn
/// from `generator`: the pattern that `built` gives for the generator's seed
/// and the words drawn so far, with the words drawn since. `None` when the
/// voice count would leave `i32`, the generator then having drawn the words
/// up to that point; `None` too when a span to be halved has an odd number
/// of ticks, since spans are whole numbers of ticks. Every pattern it builds
/// has the shape `grows_from` describes, and every leaf spans less than a
/// quarter second.
pub fn create_random_pattern(duration: u64, duplicates: i32, generator: &mut SeededGenerator) -> (pattern: Option<Pattern>)
    requires
        duplicates >= 1,
    ensures
        final(generator)@.0 == old(generator)@.0,
        final(generator)@.1 == words_drawn(
            built(old(generator)@.0, old(generator)@.1, duration as int, duplicates as int),
        ),
        match built(old(generator)@.0, old(generator)@.1, duration as int, duplicates as int) {
            Built::Grown { pattern: m, .. } => pattern matches Some(p) && model(p) == m,
            _ => pattern is None,
        },
        pattern matches Some(p) ==> grows_from(model(p), duration as int, duplicates as int),
        pattern matches Some(p) ==> short_leaves(model(p)),
    decreases duration, i32::MAX - duplicates,
{
    let ghost d = duration as int;
    let ghost k = duplicates as int;
    let roll = gen_range_i32(generator, 0, 3);
    if roll == 0 {
        if duplicates > i32::MAX / 2 {
            return None;
        }
        let voices = 2 * duplicates;
        let first = match create_random_pattern(duration, voices, generator) {
            Some(p) => p,
            None => return None,
        };
        let second = match create_random_pattern(duration, voices, generator) {
            Some(p) => p,
            None => return None,
        };
        let mut parts: Vec<Pattern> = Vec::new();
        parts.push(first);
        parts.push(second);
        let result = Pattern { duration, offset: 0, pattern_type: PatternType::Assemblage(parts) };
        proof {
            lemma_models_index(parts@);
            assert(models(parts@) =~= seq![model(parts@[0]), model(parts@[1])]);
            assert(doubled_or_repeated(model(result), d, k));
            lemma_grown_leaves_short(model(result), d, k);
        }
        return Some(result);
    }
    let draw = gen_unit_bits(generator);
    let exceeds = exceeds_unit_draw(duration, draw);
    if exceeds && !(duration >= 2 && duration % 2 == 0) {
        return None;
    }
    if exceeds {
        let half = duration / 2;
        if gen_coin(generator) || duplicates == 1 {
            let first = match create_random_pattern(half, duplicates, generator) {
                Some(p) => p,
                None => return None,
            };
            proof {
                lemma_grown_well_timed(model(first), half as int, k);
            }
            let mut second = first.clone();
            second.offset = second.offset + half;
            let mut parts: Vec<Pattern> = Vec::new();
            parts.push(first);
            parts.push(second);
            let result = Pattern { duration, offset: 0, pattern_type: PatternType::Assemblage(parts) };
            proof {
                lemma_models_index(parts@);
                assert(models(parts@) =~= seq![model(parts@[0]), model(parts@[1])]);
                assert(models(parts@)[1] == delayed(models(parts@)[0], d / 2));
                assert(doubled_or_repeated(model(result), d, k));
                lemma_grown_leaves_short(model(result), d, k);
            }
            Some(result)
        } else {
            if duplicates == i32::MAX {
                return None;
            }
            let mut child = match create_random_pattern(half, (duplicates + 1) / 2, generator) {
                Some(p) => p,
                None => return None,
            };
            proof {
                lemma_grown_well_timed(model(child), half as int, (k + 1) / 2);
            }
            let ghost unshifted = model(child);
            if gen_coin(generator) {
                child.offset = child.offset + half;
                assert(model(child) == delayed(unshifted, d / 2));
                assert(delayed(model(child), -(d / 2)) == unshifted);
            }
            proof {
                lemma_grown_leaves_short(model(child), d, k);
            }
            Some(child)
        }
    } else {
        proof {
            if d >= QUARTER_SECOND {
                lemma2_to64_rest();
                lemma_quarter_second_exceeds_every_draw(duration, draw);
            }
        }
        let kind = if gen_range_i32(generator, 0, 3) != 0 {
            let instrument = gen_range_i32(generator, 35, 83);
            NoteKind::Percussion { velocity: 120 / duplicates, instrument }
        } else {
            let tone_draw = gen_unit_bits(generator);
            NoteKind::Sine { duration, duplicates, tone_draw }
        };
        let leaf = Pattern { duration, offset: 0, pattern_type: PatternType::Notes(kind) };
        proof {
            lemma_grown_leaves_short(model(leaf), d, k);
        }
        Some(leaf)
    }
}

/// Law: a doubling builds its two voices one after the other. When the first
/// draw of `[0, 3)` is zero, the first part is what the generator builds for
/// the span and twice the voices from the words after that draw; the second
/// part is what it builds for the same span and voices from the words the
/// first build left (a second, independent pattern, not a copy); and the
/// generator ends past both builds. When either build ends without a
/// pattern, so does the doubling, where that build ended.
pub proof fn lemma_doubling_builds_voices_in_turn(seed: Seq<u32>, at: nat, d: int, k: int)
    requires
        0 <= d <= u64::MAX,
        1 <= k,
        2 * k <= i32::MAX,
        chacha_range_i32(seed, at, 0, 3).0 == 0,
    ensures
        ({
            let voices = 2 * k;
            let first = built(seed, chacha_range_i32(seed, at, 0, 3).1, d, voices);
            match first {
                Built::Grown { pattern: a, next: after_a } => {
                    let second = built(seed, after_a, d, voices);
                    match second {
                        Built::Grown { pattern: b, next: after_b } => {
                            &&& built(seed, at, d, k) matches Built::Grown { pattern: whole, next }
                            &&& next == after_b
                            &&& whole.duration == d
                            &&& whole.offset == 0
                            &&& whole.body == BodyModel::Assemblage(seq![a, b])
                        },
                        _ => built(seed, at, d, k) == second,
                    }
                },
                _ => built(seed, at, d, k) == first,
            }
        }),
{
}

/// Law: in an offset split (the first draw of `[0, 3)` not zero, four times
/// the span exceeding the unit draw, the span halving into whole ticks, the
/// coin false and more than one voice), the generator builds a pattern of
/// half the span for half the voices (rounded up) and then draws one more
/// coin: the result is that pattern moved half the span later exactly when
/// this coin is true, so its notes are those of the half pattern, each half
/// the span later, and otherwise the half pattern itself.
pub proof fn lemma_offset_split_follows_its_coin(
    seed: Seq<u32>,
    at: nat,
    d: int,
    k: int,
    origin: int,
)
    requires
        0 <= d <= u64::MAX,
        1 < k < i32::MAX,
        chacha_range_i32(seed, at, 0, 3).0 != 0,
        exceeds_draw(d as u64, chacha_unit_bits(seed, chacha_range_i32(seed, at, 0, 3).1)),
        splittable(d),
        !chacha_bool(seed, chacha_range_i32(seed, at, 0, 3).1 + 2),
        built(seed, chacha_range_i32(seed, at, 0, 3).1 + 3, d / 2, (k + 1) / 2) is Grown,
    ensures
        ({
            let child = built(seed, chacha_range_i32(seed, at, 0, 3).1 + 3, d / 2, (k + 1) / 2);
            let half = child->Grown_pattern;
            let after_child = child->Grown_next;
            let later = chacha_bool(seed, after_child);
            &&& built(seed, at, d, k) matches Built::Grown { pattern: whole, next }
            &&& next == after_child + 1
            &&& whole.duration == half.duration
            &&& whole.body == half.body
            &&& whole.offset == half.offset + if later { d / 2 } else { 0 }
            &&& assembled(whole, origin) == if later {
                delayed_notes(assembled(half, origin), d / 2)
            } else {
                assembled(half, origin)
            }
        }),
{
    let child = built(seed, chacha_range_i32(seed, at, 0, 3).1 + 3, d / 2, (k + 1) / 2);
    let half = child->Grown_pattern;
    lemma_delayed_copy_replays(half, origin, d / 2);
}

/// Law: in a repeated split (the first draw of `[0, 3)` not zero, four times
/// the span exceeding the unit draw, the span halving into whole ticks, and
/// the coin true or a single voice), the generator builds one pattern of
/// half the span for the same voices and plays it twice: the result holds
/// that pattern and its copy half the span later, so its notes are those of
/// the half pattern followed by the same notes half the span later. The
/// generator ends where the half pattern's build ended.
pub proof fn lemma_repeated_split_plays_its_half_twice(
    seed: Seq<u32>,
    at: nat,
    d: int,
    k: int,
    origin: int,
)
    requires
        0 <= d <= u64::MAX,
        1 <= k <= i32::MAX,
        chacha_range_i32(seed, at, 0, 3).0 != 0,
        exceeds_draw(d as u64, chacha_unit_bits(seed, chacha_range_i32(seed, at, 0, 3).1)),
        splittable(d),
        chacha_bool(seed, chacha_range_i32(seed, at, 0, 3).1 + 2) || k == 1,
        built(seed, chacha_range_i32(seed, at, 0, 3).1 + 3, d / 2, k) is Grown,
    ensures
        ({
            let child = built(seed, chacha_range_i32(seed, at, 0, 3).1 + 3, d / 2, k);
            let half = child->Grown_pattern;
            &&& built(seed, at, d, k) matches Built::Grown { pattern: whole, next }
            &&& next == child->Grown_next
            &&& whole.duration == d
            &&& whole.offset == 0
            &&& whole.body == BodyModel::Assemblage(seq![half, delayed(half, d / 2)])
            &&& assembled(whole, origin) == assembled(half, origin) + delayed_notes(
                assembled(half, origin),
                d / 2,
            )
        }),
{
    let child = built(seed, chacha_range_i32(seed, at, 0, 3).1 + 3, d / 2, k);
    let half = child->Grown_pattern;
    let parts = seq![half, delayed(half, d / 2)];
    lemma_delayed_copy_replays(half, origin, d / 2);
    let single = seq![half];
    assert(parts.drop_last() == single);
    assert(single.drop_last() =~= Seq::<PatternModel>::empty());
    assert(single.last() == half);
    assert(assembled_parts(single, origin) =~= assembled_parts(single.drop_last(), origin) + assembled(half, origin));
    assert(assembled_parts(single.drop_last(), origin) =~= Seq::<(int, NoteKind)>::empty());
    assert(assembled_parts(single, origin) =~= assembled(half, origin));
    assert(parts.last() == delayed(half, d / 2));
}

/// Law: a span whose four times does not exceed the unit draw (after a first
/// draw of `[0, 3)` that is not zero) is one note over the whole span, at
/// offset zero. After a second draw of `[0, 3)` that is not zero it is a
/// percussion hit of velocity `120 / k` on the instrument drawn next from
/// `[35, 83)`; after a zero it is a sine tone of the span for `k` voices
/// whose pitch is the next unit draw.
pub proof fn lemma_short_span_is_one_note(seed: Seq<u32>, at: nat, d: int, k: int)
    requires
        0 <= d <= u64::MAX,
        1 <= k <= i32::MAX,
        chacha_range_i32(seed, at, 0, 3).0 != 0,
        !exceeds_draw(d as u64, chacha_unit_bits(seed, chacha_range_i32(seed, at, 0, 3).1)),
    ensures
        ({
            let second = chacha_range_i32(seed, chacha_range_i32(seed, at, 0, 3).1 + 2, 0, 3);
            &&& built(seed, at, d, k) matches Built::Grown { pattern: note, next }
            &&& note.duration == d
            &&& note.offset == 0
            &&& if second.0 != 0 {
                let instrument = chacha_range_i32(seed, second.1, 35, 83);
                &&& next == instrument.1
                &&& note.body == BodyModel::Notes(
                    NoteKind::Percussion { velocity: (120int / k) as i32, instrument: instrument.0 },
                )
            } else {
                &&& next == second.1 + 2
                &&& note.body == BodyModel::Notes(
                    NoteKind::Sine {
                        duration: d as u64,
                        duplicates: k as i32,
                        tone_draw: chacha_unit_bits(seed, second.1),
                    },
                )
            }
        }),
{
}

/// Law: a span whose four times exceeds the unit draw but whose tick count
/// is odd (after a first draw of `[0, 3)` that is not zero) cannot be halved
/// into whole ticks: the generator ends there without a pattern, past the
/// two words of the unit draw.
pub proof fn lemma_odd_span_to_halve_ends(seed: Seq<u32>, at: nat, d: int, k: int)
    requires
        0 <= d <= u64::MAX,
        1 <= k <= i32::MAX,
        chacha_range_i32(seed, at, 0, 3).0 != 0,
        exceeds_draw(d as u64, chacha_unit_bits(seed, chacha_range_i32(seed, at, 0, 3).1)),
        d % 2 == 1,
    ensures
        built(seed, at, d, k) == (Built::TooFine { next: chacha_range_i32(seed, at, 0, 3).1 + 2 }),
{
}

/// Law: two generators in the same state (the same seed, the same number of
/// words drawn) build the same pattern for the same span and voices, or both
/// build none, and are left in the same state: what `create_random_pattern`
/// returns and leaves behind is fixed by the generator's view.
pub proof fn lemma_generation_deterministic(
    first: SeededGenerator,
    second: SeededGenerator,
    d: int,
    k: int,
)
    requires
        first@ == second@,
    ensures
        built(first@.0, first@.1, d, k) == built(second@.0, second@.1, d, k),
        words_drawn(built(first@.0, first@.1, d, k)) == words_drawn(
            built(second@.0, second@.1, d, k),
        ),
{
}

/// Law: a pattern the generator can build for a span of `d > 0` ticks is well
/// timed and lies within that span.
pub proof fn lemma_grown_well_timed(m: PatternModel, d: int, k: int)
    requires
        grows_from(m, d, k),
        d > 0,
    ensures
        well_timed(m),
        m.offset >= 0,
        m.offset + m.duration <= d,
    decreases d, m,
{
    if is_leaf_of(m, d, k) {
    } else {
        let h = d / 2;
        if doubled_or_repeated(m, d, k) {
            let parts = m.body->Assemblage_0;
            if 2 * k <= i32::MAX && grows_from(parts[0], d, 2 * k) && grows_from(parts[1], d, 2 * k) {
                lemma_grown_well_timed(parts[0], d, 2 * k);
                lemma_grown_well_timed(parts[1], d, 2 * k);
            } else {
                lemma_grown_well_timed(parts[0], h, k);
                assert(well_timed(parts[1]));
            }
            lemma_pair_fits(parts, d);
        } else if grows_from(m, h, (k + 1) / 2) {
            lemma_grown_well_timed(m, h, (k + 1) / 2);
        } else {
            lemma_grown_well_timed(delayed(m, -h), h, (k + 1) / 2);
            assert(well_timed(m));
        }
    }
}

proof fn lemma_pair_fits(parts: Seq<PatternModel>, span: int)
    requires
        parts.len() == 2,
        well_timed(parts[0]),
        well_timed(parts[1]),
        parts[0].offset + parts[0].duration <= span,
        parts[1].offset + parts[1].duration <= span,
    ensures
        parts_fit(parts, span),
{
    let first = parts.drop_last();
    assert(first.drop_last().len() == 0);
    assert(parts_fit(first.drop_last(), span));
    assert(first.last() == parts[0]);
    assert(parts_fit(first, span));
}

/// A note that can be played: a percussion hit with velocity in `[0, 120]`
/// on an instrument of `[35, 83)`, or a sine tone for at least one voice
/// whose pitch draw lies in `[0, 1)`.
pub open spec fn sound_note(kind: NoteKind) -> bool {
    match kind {
        NoteKind::Percussion { velocity, instrument } => {
            &&& 0 <= velocity <= 120
            &&& 35 <= instrument < 83
        },
        NoteKind::Sine { duration, duplicates, tone_draw } => {
            &&& duplicates >= 1
            &&& tone_draw < UNIT_ONE_BITS
        },
    }
}

/// The test of a sound note.
pub open spec fn is_sound() -> spec_fn(NoteKind) -> bool {
    |kind: NoteKind| sound_note(kind)
}

/// A sine tone lasts less than a quarter second.
pub open spec fn short_sine(kind: NoteKind) -> bool {
    kind matches NoteKind::Sine { duration, .. } ==> duration < QUARTER_SECOND
}

/// The test that a sine tone is short.
pub open spec fn is_short_sine() -> spec_fn(NoteKind) -> bool {
    |kind: NoteKind| short_sine(kind)
}

proof fn lemma_pair_leaves(parts: Seq<PatternModel>, p: spec_fn(NoteKind) -> bool)
    requires
        parts.len() == 2,
        leaves_all(parts[0], p),
        leaves_all(parts[1], p),
    ensures
        parts_leaves_all(parts, p),
{
    let first = parts.drop_last();
    assert(first.drop_last().len() == 0);
    assert(parts_leaves_all(first.drop_last(), p));
    assert(first.last() == parts[0]);
    assert(parts_leaves_all(first, p));
}

/// Law: every note of a pattern the generator can build for one voice or
/// more is sound: percussion velocities stay within `[0, 120]` and
/// instruments within `[35, 83)`.
pub proof fn lemma_grown_notes_sound(m: PatternModel, d: int, k: int)
    requires
        grows_from(m, d, k),
        k >= 1,
    ensures
        leaves_all(m, is_sound()),
    decreases d, m,
{
    if is_leaf_of(m, d, k) && d < QUARTER_SECOND {
        match m.body {
            BodyModel::Notes(NoteKind::Percussion { velocity, instrument }) => {
                assert(0 <= 120int / k <= 120) by (nonlinear_arith)
                    requires
                        k >= 1,
                ;
            },
            _ => {},
        }
    } else {
        let h = d / 2;
        if doubled_or_repeated(m, d, k) {
            let parts = m.body->Assemblage_0;
            if 2 * k <= i32::MAX && grows_from(parts[0], d, 2 * k) && grows_from(parts[1], d, 2 * k) {
                lemma_grown_notes_sound(parts[0], d, 2 * k);
                lemma_grown_notes_sound(parts[1], d, 2 * k);
            } else {
                lemma_grown_notes_sound(parts[0], h, k);
                assert(leaves_all(parts[1], is_sound()));
            }
            lemma_pair_leaves(parts, is_sound());
        } else if grows_from(m, h, (k + 1) / 2) {
            lemma_grown_notes_sound(m, h, (k + 1) / 2);
        } else {
            lemma_grown_notes_sound(delayed(m, -h), h, (k + 1) / 2);
            assert(leaves_all(m, is_sound()));
        }
    }
}

/// Law: in a pattern the generator can build, every sine tone lasts less
/// than a quarter second, since every longer span is built from
/// sub-patterns.
pub proof fn lemma_grown_sines_short(m: PatternModel, d: int, k: int)
    requires
        grows_from(m, d, k),
    ensures
        leaves_all(m, is_short_sine()),
    decreases d, m,
{
    if is_leaf_of(m, d, k) && d < QUARTER_SECOND {
    } else {
        let h = d / 2;
        if doubled_or_repeated(m, d, k) {
            let parts = m.body->Assemblage_0;
            if 2 * k <= i32::MAX && grows_from(parts[0], d, 2 * k) && grows_from(parts[1], d, 2 * k) {
                lemma_grown_sines_short(parts[0], d, 2 * k);
                lemma_grown_sines_short(parts[1], d, 2 * k);
            } else {
                lemma_grown_sines_short(parts[0], h, k);
                assert(leaves_all(parts[1], is_short_sine()));
            }
            lemma_pair_leaves(parts, is_short_sine());
        } else if grows_from(m, h, (k + 1) / 2) {
            lemma_grown_sines_short(m, h, (k + 1) / 2);
        } else {
            lemma_grown_sines_short(delayed(m, -h), h, (k + 1) / 2);
            assert(leaves_all(m, is_short_sine()));
        }
    }
}

/// Every assemblage within `m`, placed at offset zero, holds two patterns
/// in one of the generator's two ways (`doubled_or_repeated`).
pub open spec fn assemblages_paired(m: PatternModel) -> bool
    decreases m, 1int,
{
    match m.body {
        BodyModel::Notes(_) => true,
        BodyModel::Assemblage(parts) => {
            &&& exists|span: int, voices: int|
                #[trigger] doubled_or_repeated(delayed(m, -m.offset), span, voices)
            &&& parts_paired(parts)
        },
    }
}

/// Every assemblage within the patterns of `parts` is paired.
pub open spec fn parts_paired(parts: Seq<PatternModel>) -> bool
    decreases parts, 0int,
{
    parts.len() == 0 || (parts_paired(parts.drop_last()) && assemblages_paired(parts.last()))
}

proof fn lemma_paired_delayed(m: PatternModel, delay: int)
    requires
        assemblages_paired(m),
    ensures
        assemblages_paired(delayed(m, delay)),
{
    let moved = delayed(m, delay);
    if m.body is Assemblage {
        assert(delayed(moved, -moved.offset) == delayed(m, -m.offset));
    }
}

/// Law: in a pattern the generator can build, every assemblage (not only
/// the outermost) holds two patterns in one of the generator's two ways.
pub proof fn lemma_grown_assemblages_paired(m: PatternModel, d: int, k: int)
    requires
        grows_from(m, d, k),
    ensures
        assemblages_paired(m),
    decreases d, m,
{
    if is_leaf_of(m, d, k) && d < QUARTER_SECOND {
    } else {
        let h = d / 2;
        if doubled_or_repeated(m, d, k) {
            let parts = m.body->Assemblage_0;
            assert(delayed(m, -m.offset) == m);
            assert(doubled_or_repeated(delayed(m, -m.offset), d, k));
            if 2 * k <= i32::MAX && grows_from(parts[0], d, 2 * k) && grows_from(parts[1], d, 2 * k) {
                lemma_grown_assemblages_paired(parts[0], d, 2 * k);
                lemma_grown_assemblages_paired(parts[1], d, 2 * k);
            } else {
                lemma_grown_assemblages_paired(parts[0], h, k);
                lemma_paired_delayed(parts[0], h);
            }
            let first = parts.drop_last();
            assert(first.drop_last().len() == 0);
            assert(parts_paired(first.drop_last()));
            assert(first.last() == parts[0]);
            assert(parts_paired(first));
        } else if grows_from(m, h, (k + 1) / 2) {
            lemma_grown_assemblages_paired(m, h, (k + 1) / 2);
        } else {
            lemma_grown_assemblages_paired(delayed(m, -h), h, (k + 1) / 2);
            lemma_paired_delayed(delayed(m, -h), h);
            assert(delayed(delayed(m, -h), h) == m);
        }
    }
}

/// Every leaf of `m` spans less than a quarter second.
pub open spec fn short_leaves(m: PatternModel) -> bool
    decreases m, 1int,
{
    match m.body {
        BodyModel::Notes(_) => m.duration < QUARTER_SECOND,
        BodyModel::Assemblage(parts) => short_parts(parts),
    }
}

/// Every leaf of every pattern of `parts` spans less than a quarter second.
pub open spec fn short_parts(parts: Seq<PatternModel>) -> bool
    decreases parts, 0int,
{
    parts.len() == 0 || (short_parts(parts.drop_last()) && short_leaves(parts.last()))
}

/// Law: in a pattern the generator can build, every leaf spans less than a
/// quarter second: every span of a quarter second or more exceeds each draw
/// and so is built from halves.
pub proof fn lemma_grown_leaves_short(m: PatternModel, d: int, k: int)
    requires
        grows_from(m, d, k),
    ensures
        short_leaves(m),
    decreases d, m,
{
    if is_leaf_of(m, d, k) && d < QUARTER_SECOND {
    } else {
        let h = d / 2;
        if doubled_or_repeated(m, d, k) {
            let parts = m.body->Assemblage_0;
            if 2 * k <= i32::MAX && grows_from(parts[0], d, 2 * k) && grows_from(parts[1], d, 2 * k) {
                lemma_grown_leaves_short(parts[0], d, 2 * k);
                lemma_grown_leaves_short(parts[1], d, 2 * k);
            } else {
                lemma_grown_leaves_short(parts[0], h, k);
                assert(short_leaves(parts[1]));
            }
            let first = parts.drop_last();
            assert(first.drop_last().len() == 0);
            assert(short_parts(first.drop_last()));
            assert(first.last() == parts[0]);
            assert(short_parts(first));
        } else if grows_from(m, h, (k + 1) / 2) {
            lemma_grown_leaves_short(m, h, (k + 1) / 2);
        } else {
            lemma_grown_leaves_short(delayed(m, -h), h, (k + 1) / 2);
            assert(short_leaves(m));
        }
    }
}

/// Law: every sine tone of a pattern the generator can build lasts exactly
/// its leaf's span, so it fits that leaf.
pub proof fn lemma_grown_sines_fit(m: PatternModel, d: int, k: int)
    requires
        grows_from(m, d, k),
    ensures
        sines_fit(m),
    decreases d, m,
{
    if is_leaf_of(m, d, k) && d < QUARTER_SECOND {
    } else {
        let h = d / 2;
        if doubled_or_repeated(m, d, k) {
            let parts = m.body->Assemblage_0;
            if 2 * k <= i32::MAX && grows_from(parts[0], d, 2 * k) && grows_from(parts[1], d, 2 * k) {
                lemma_grown_sines_fit(parts[0], d, 2 * k);
                lemma_grown_sines_fit(parts[1], d, 2 * k);
            } else {
                lemma_grown_sines_fit(parts[0], h, k);
                assert(sines_fit(parts[1]));
            }
            let first = parts.drop_last();
            assert(first.drop_last().len() == 0);
            assert(parts_sines_fit(first.drop_last()));
            assert(first.last() == parts[0]);
            assert(parts_sines_fit(first));
        } else if grows_from(m, h, (k + 1) / 2) {
            lemma_grown_sines_fit(m, h, (k + 1) / 2);
        } else {
            lemma_grown_sines_fit(delayed(m, -h), h, (k + 1) / 2);
            assert(sines_fit(m));
        }
    }
}

/// Law: a pattern the generator can build plays at least one note.
pub proof fn lemma_grown_plays(m: PatternModel, d: int, k: int, origin: int)
    requires
        grows_from(m, d, k),
    ensures
        assembled(m, origin).len() >= 1,
    decreases d, m,
{
    if is_leaf_of(m, d, k) && d < QUARTER_SECOND {
    } else {
        let h = d / 2;
        if doubled_or_repeated(m, d, k) {
            let parts = m.body->Assemblage_0;
            let at = origin + m.offset;
            if 2 * k <= i32::MAX && grows_from(parts[0], d, 2 * k) && grows_from(parts[1], d, 2 * k) {
                lemma_grown_plays(parts[1], d, 2 * k, at);
            } else {
                lemma_grown_plays(parts[0], h, k, at);
                lemma_delayed_copy_replays(parts[0], at, h);
            }
            assert(parts.last() == parts[1]);
            assert(assembled(m, origin) == assembled_parts(parts.drop_last(), at) + assembled(
                parts[1],
                at,
            ));
        } else if grows_from(m, h, (k + 1) / 2) {
            lemma_grown_plays(m, h, (k + 1) / 2, origin);
        } else {
            lemma_grown_plays(delayed(m, -h), h, (k + 1) / 2, origin);
            assert(delayed(delayed(m, -h), h) == m);
            lemma_delayed_copy_replays(delayed(m, -h), origin, h);
        }
    }
}

/// Law: a pattern delayed by `delay` ticks plays the notes of the pattern,
/// each `delay` ticks later; so the second half of a repeated span replays
/// its first half, half a span later.
pub proof fn lemma_delayed_copy_replays(m: PatternModel, origin: int, delay: int)
    ensures
        assembled(delayed(m, delay), origin) == delayed_notes(assembled(m, origin), delay),
{
    lemma_assembly_delays(m, origin, delay);
    assert(origin + (m.offset + delay) == (origin + delay) + m.offset);
    assert(assembled(delayed(m, delay), origin) == assembled(m, origin + delay));
}

} // verus!

use music_sandbox::generate::create_random_pattern;
use music_sandbox::pattern::{assemble_pattern, NoteKind, Pattern, PatternType};
use music_sandbox::playground::{current_playground, PLAYGROUND_SEED, PLAYGROUND_SPAN};
use music_sandbox::random::SeededGenerator;
use music_sandbox::unit_draw::TICK_SHIFT;
use music_sandbox::generate::QUARTER_SECOND;
use music_sandbox::unit_draw::UNIT_ONE_BITS;

const SECOND: u64 = 1 << TICK_SHIFT;

fn seeded_generator(seed: &[u32]) -> SeededGenerator {
    SeededGenerator::new(seed)
}

fn check_tree(p: &Pattern, span: u64, duplicates: i32) {
    assert!(p.duration > 0);
    assert!(p.offset + p.duration <= span);
    match &p.pattern_type {
        PatternType::Notes(NoteKind::Percussion { velocity, instrument }) => {
            assert!(p.duration < QUARTER_SECOND);
            assert_eq!(*velocity, 120 / duplicates);
            assert!((35..83).contains(instrument));
        }
        PatternType::Notes(NoteKind::Sine { duration, duplicates: d, tone_draw }) => {
            assert_eq!(*duration, p.duration);
            assert!(p.duration < QUARTER_SECOND);
            assert!(*d >= 1);
            assert!(*tone_draw < UNIT_ONE_BITS);
        }
        PatternType::Assemblage(parts) => {
            assert_eq!(parts.len(), 2);
            for part in parts {
                assert!(part.offset + part.duration <= p.duration);
            }
        }
    }
}

fn walk(p: &Pattern, f: &mut dyn FnMut(&Pattern)) {
    f(p);
    if let PatternType::Assemblage(parts) = &p.pattern_type {
        for part in parts {
            walk(part, f);
        }
    }
}

#[test]
fn seeded_generator_is_deterministic() {
    let mut a = seeded_generator(&[7]);
    let mut b = seeded_generator(&[7]);
    let pa = create_random_pattern(SECOND, 1, &mut a).expect("no overflow");
    let pb = create_random_pattern(SECOND, 1, &mut b).expect("no overflow");
    assert_eq!(assemble_pattern(pa, 0), assemble_pattern(pb, 0));
}

#[test]
fn generated_notes_stay_inside_the_span() {
    for seed in 0u32..40 {
        let span: u64 = 2 * SECOND;
        let mut g = seeded_generator(&[seed]);
        if let Some(p) = create_random_pattern(span, 1, &mut g) {
            check_tree(&p, span, 1);
            let mut seen = 0;
            walk(&p, &mut |q: &Pattern| {
                seen += 1;
                assert!(q.duration > 0);
            });
            assert!(seen >= 1);
            for note in assemble_pattern(p, 1000) {
                assert!(note.start >= 1000 && note.start < 1000 + span as u128);
                if let NoteKind::Percussion { velocity, instrument } = note.kind {
                    assert!((0..=120).contains(&velocity));
                    assert!((35..83).contains(&instrument));
                }
            }
        }
    }
}

#[test]
fn tiny_span_becomes_a_single_note() {
    // a one-tick span cannot be halved: it is a note, doubled notes, or no pattern
    for seed in 0u32..20 {
        let mut g = seeded_generator(&[seed]);
        if let Some(p) = create_random_pattern(1, 1, &mut g) {
            for note in assemble_pattern(p, 0) {
                assert_eq!(note.start, 0);
            }
        }
    }
}

#[test]
fn huge_voice_count_overflows_on_doubling() {
    // with i32::MAX voices any doubling leaves i32; a note is still possible
    let mut outcomes = (0, 0);
    for seed in 0u32..30 {
        let mut g = seeded_generator(&[seed]);
        match create_random_pattern(1, i32::MAX, &mut g) {
            None => outcomes.0 += 1,
            Some(p) => {
                outcomes.1 += 1;
                check_tree(&p, 1, i32::MAX);
            }
        }
    }
    assert!(outcomes.0 > 0);
    assert!(outcomes.1 > 0);
}

#[test]
fn playground_notes_lie_in_its_span() {
    assert_eq!(PLAYGROUND_SEED, 35);
    assert_eq!(PLAYGROUND_SPAN, 128 << TICK_SHIFT);
    let notes = current_playground().expect("the playground seed builds a pattern");
    assert!(!notes.is_empty());
    for note in &notes {
        assert!(note.start < PLAYGROUND_SPAN as u128);
        match note.kind {
            NoteKind::Sine { duration, duplicates, tone_draw } => {
                assert!(duration < QUARTER_SECOND);
                assert!(note.start + duration as u128 <= PLAYGROUND_SPAN as u128);
                assert!(duplicates >= 1 && tone_draw < UNIT_ONE_BITS);
            }
            NoteKind::Percussion { velocity, instrument } => {
                assert!((0..=120).contains(&velocity) && (35..83).contains(&instrument));
            }
        }
    }
    assert_eq!(current_playground(), Some(notes));
}

#[test]
fn draws_vary_across_seeds() {
    let mut instruments = std::collections::BTreeSet::new();
    let mut tones = std::collections::BTreeSet::new();
    let mut shapes = std::collections::BTreeSet::new();
    for seed in 0u32..60 {
        let mut g = seeded_generator(&[seed]);
        if let Some(p) = create_random_pattern(SECOND, 1, &mut g) {
            let notes = assemble_pattern(p, 0);
            shapes.insert(notes.len());
            for note in notes {
                match note.kind {
                    NoteKind::Percussion { instrument, .. } => {
                        instruments.insert(instrument);
                    }
                    NoteKind::Sine { tone_draw, .. } => {
                        tones.insert(tone_draw);
                    }
                }
            }
        }
    }
    assert!(instruments.len() > 5);
    assert!(tones.len() > 2);
    assert!(tones.iter().all(|&t| t < UNIT_ONE_BITS));
    assert!(shapes.len() > 2);
}

#[test]
fn quarter_second_spans_are_built_from_halves() {
    assert_eq!(QUARTER_SECOND, SECOND / 4);
    for seed in 0u32..30 {
        let mut g = seeded_generator(&[seed]);
        if let Some(p) = create_random_pattern(4 * SECOND, 1, &mut g) {
            walk(&p, &mut |q: &Pattern| {
                if let PatternType::Notes(_) = q.pattern_type {
                    assert!(q.duration < QUARTER_SECOND);
                }
            });
        }
    }
}

#[test]
fn generator_is_keyed_by_its_seed() {
    let mut a = seeded_generator(&[PLAYGROUND_SEED]);
    let pa = assemble_pattern(create_random_pattern(PLAYGROUND_SPAN, 1, &mut a).unwrap(), 0);
    let mut others = 0;
    for seed in PLAYGROUND_SEED + 1..PLAYGROUND_SEED + 20 {
        let mut b = seeded_generator(&[seed]);
        if let Some(pb) = create_random_pattern(PLAYGROUND_SPAN, 1, &mut b) {
            assert_ne!(pa, assemble_pattern(pb, 0));
            others += 1;
        }
    }
    assert!(others > 0);
    assert_eq!(current_playground(), Some(pa));
}

#[test]
fn odd_spans_of_a_quarter_second_or_more_build_nothing() {
    // such a span exceeds every draw, and its halves are no whole number of ticks
    for seed in 0u32..30 {
        let mut g = seeded_generator(&[seed]);
        assert!(create_random_pattern(QUARTER_SECOND + 1, 1, &mut g).is_none());
        let mut h = seeded_generator(&[seed]);
        assert!(create_random_pattern(2 * (QUARTER_SECOND + 1), 2, &mut h).is_none());
    }
}

#[test]
fn spans_that_halve_exactly_end_in_short_leaves() {
    // three quarters of a second halves exactly while it is a quarter second or more
    let span = 3 * (1u64 << 50) * 4;
    for seed in 0u32..30 {
        let mut g = seeded_generator(&[seed]);
        let p = create_random_pattern(span, 1, &mut g).expect("every span halves");
        walk(&p, &mut |q: &Pattern| {
            if let PatternType::Notes(_) = q.pattern_type {
                assert!(q.duration < QUARTER_SECOND);
            }
        });
    }
}

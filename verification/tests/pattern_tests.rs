use music_sandbox::pattern::{assemble_pattern, NoteKind, Pattern, PatternType, ScheduledNote};

fn hit(instrument: i32) -> NoteKind {
    NoteKind::Percussion { velocity: 60, instrument }
}

fn leaf(duration: u64, offset: u64, kind: NoteKind) -> Pattern {
    Pattern { duration, offset, pattern_type: PatternType::Notes(kind) }
}

fn group(duration: u64, offset: u64, parts: Vec<Pattern>) -> Pattern {
    Pattern { duration, offset, pattern_type: PatternType::Assemblage(parts) }
}

fn sample_tree() -> Pattern {
    group(
        100,
        5,
        vec![
            leaf(50, 0, hit(35)),
            group(50, 50, vec![leaf(25, 0, hit(36)), leaf(25, 25, hit(37))]),
            leaf(10, 7, NoteKind::Sine { duration: 10, duplicates: 2, tone_draw: 0 }),
        ],
    )
}

#[test]
fn assembles_leaves_in_order_with_summed_offsets() {
    let notes = assemble_pattern(sample_tree(), 1000);
    assert_eq!(
        notes,
        vec![
            ScheduledNote { start: 1005, kind: hit(35) },
            ScheduledNote { start: 1055, kind: hit(36) },
            ScheduledNote { start: 1080, kind: hit(37) },
            ScheduledNote { start: 1012, kind: NoteKind::Sine { duration: 10, duplicates: 2, tone_draw: 0 } },
        ]
    );
}

#[test]
fn single_leaf_plays_at_origin_plus_offset() {
    let notes = assemble_pattern(leaf(4, 3, hit(40)), 10);
    assert_eq!(notes, vec![ScheduledNote { start: 13, kind: hit(40) }]);
}

#[test]
fn empty_assemblage_plays_nothing() {
    assert!(assemble_pattern(group(8, 0, vec![]), 0).is_empty());
}

#[test]
fn later_origin_delays_every_note() {
    let early = assemble_pattern(sample_tree(), 0);
    let late = assemble_pattern(sample_tree(), 250);
    assert_eq!(early.len(), late.len());
    for (a, b) in early.iter().zip(late.iter()) {
        assert_eq!(a.start + 250, b.start);
        assert_eq!(a.kind, b.kind);
    }
}

#[test]
fn clone_keeps_the_whole_tree() {
    let tree = sample_tree();
    let copy = tree.clone();
    assert_eq!(assemble_pattern(copy, 0), assemble_pattern(tree, 0));
}

#[test]
fn delayed_copy_replays_half_a_span_later() {
    let half = leaf(50, 0, hit(38));
    let mut second = half.clone();
    second.offset += 50;
    let repeated = group(100, 0, vec![half, second]);
    let notes = assemble_pattern(repeated, 0);
    assert_eq!(notes[0].start + 50, notes[1].start);
    assert_eq!(notes[0].kind, notes[1].kind);
}

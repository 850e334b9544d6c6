use music_sandbox::arrangement::{
    input_arrangement, watcher_plan, InputPlacement, Section, WatcherNote, BASS_TRANSPOSE,
    REPRISE_DELAY_QUARTERS, STRIKING_DELAY_QUARTERS,
};
use music_sandbox::arrangement::Section::{Arising, Striking};
use music_sandbox::playback::advance_playback;
use music_sandbox::voicing::NoteTags;

fn plain() -> NoteTags {
    NoteTags {
        melody: false,
        first: false,
        emphasis: false,
        weakened: false,
        percussion: false,
        bass: false,
        next_phrase: false,
    }
}

fn place(section: Section, index: usize, reprise: bool, transpose: i32) -> InputPlacement {
    InputPlacement { section, index, reprise, transpose }
}

#[test]
fn input_arrangement_sections() {
    let arising = vec![NoteTags { bass: true, ..plain() }, plain(), NoteTags { bass: true, melody: true, ..plain() }];
    let placements = input_arrangement(&arising, 2);
    assert_eq!(STRIKING_DELAY_QUARTERS, 12);
    assert_eq!(REPRISE_DELAY_QUARTERS, 29);
    assert_eq!(BASS_TRANSPOSE, 7);
    assert_eq!(
        placements,
        vec![
            place(Arising, 0, false, 0),
            place(Arising, 1, false, 0),
            place(Arising, 2, false, 0),
            place(Striking, 0, false, 0),
            place(Striking, 1, false, 0),
            place(Arising, 0, true, 0),
            place(Arising, 1, true, 0),
            place(Arising, 2, true, 0),
            place(Arising, 0, true, 7),
            place(Arising, 2, true, 7),
            place(Striking, 0, true, 0),
            place(Striking, 1, true, 0),
        ]
    );
}

#[test]
fn input_arrangement_of_empty_phrases() {
    assert!(input_arrangement(&Vec::new(), 0).is_empty());
    assert_eq!(input_arrangement(&Vec::new(), 1).len(), 2);
}

#[test]
fn watcher_plan_plays_two_passes() {
    let arising = vec![
        NoteTags { melody: true, first: true, ..plain() },
        NoteTags { melody: true, next_phrase: true, ..plain() },
        NoteTags { percussion: true, ..plain() },
    ];
    let striking = vec![plain(), NoteTags { next_phrase: true, emphasis: true, ..plain() }];
    let plan = watcher_plan(&arising, &striking);
    assert_eq!(plan.striking_anchor, Some(1));
    assert_eq!(plan.repeat_anchor, Some(4));
    assert_eq!(plan.notes.len(), 10);
    let first_pass: Vec<WatcherNote> = plan.notes[..5].to_vec();
    assert_eq!(first_pass[0].tags, arising[0]);
    assert_eq!(first_pass[1].tags, NoteTags { melody: true, weakened: true, ..plain() });
    assert_eq!(first_pass[2].tags, arising[2]);
    assert_eq!(first_pass[3], WatcherNote { section: Section::Striking, index: 0, tags: plain(), second_pass: false });
    assert_eq!(first_pass[4].tags, striking[1]);
    for (a, b) in first_pass.iter().zip(plan.notes[5..].iter()) {
        assert_eq!(WatcherNote { second_pass: true, ..*a }, *b);
        assert!(!a.second_pass);
    }
}

#[test]
fn watcher_plan_without_markers() {
    let plan = watcher_plan(&vec![plain()], &vec![plain()]);
    assert_eq!(plan.striking_anchor, None);
    assert_eq!(plan.repeat_anchor, None);
    assert_eq!(plan.notes.len(), 4);
}

#[test]
fn playback_loops_past_the_end() {
    assert_eq!(advance_playback(0, 4096, 10000), 4096);
    assert_eq!(advance_playback(8192, 4096, 10000), 0);
    assert_eq!(advance_playback(5904, 4096, 10000), 10000);
    assert_eq!(advance_playback(5905, 4096, 10000), 0);
}

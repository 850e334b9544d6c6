use music_sandbox::voicing::{
    arising_velocity, find_tag, percussion_instrument, pitched_instrument, striking_velocity,
    watcher_velocity, weaken_arising, without_next_phrase, NoteTags, Tag,
};

fn plain() -> NoteTags {
    NoteTags {
        melody: false,
        first: false,
        emphasis: false,
        weakened: false,
        percussion: false,
        bass: false,
        next_phrase: false,
    }
}

#[test]
fn watcher_velocities() {
    assert_eq!(watcher_velocity(plain()), 90);
    assert_eq!(watcher_velocity(NoteTags { weakened: true, ..plain() }), 60);
    assert_eq!(watcher_velocity(NoteTags { emphasis: true, weakened: true, ..plain() }), 120);
}

#[test]
fn instruments() {
    assert_eq!(pitched_instrument(NoteTags { melody: true, ..plain() }), 57);
    assert_eq!(pitched_instrument(plain()), 43);
    assert_eq!(percussion_instrument(30), 40);
    assert_eq!(percussion_instrument(31), 35);
    assert_eq!(percussion_instrument(-4), 35);
}

#[test]
fn input_playground_velocities() {
    assert_eq!(arising_velocity(NoteTags { first: true, ..plain() }), 90);
    assert_eq!(arising_velocity(plain()), 60);
    assert_eq!(striking_velocity(NoteTags { emphasis: true, ..plain() }), 120);
    assert_eq!(striking_velocity(NoteTags { weakened: true, ..plain() }), 90);
}

#[test]
fn weakening_only_touches_later_melody_notes() {
    let later = NoteTags { melody: true, ..plain() };
    assert_eq!(weaken_arising(later), NoteTags { weakened: true, ..later });
    let first = NoteTags { melody: true, first: true, ..plain() };
    assert_eq!(weaken_arising(first), first);
    assert_eq!(weaken_arising(plain()), plain());
}

#[test]
fn next_phrase_marker_is_cleared() {
    let marked = NoteTags { next_phrase: true, bass: true, ..plain() };
    assert_eq!(without_next_phrase(marked), NoteTags { bass: true, ..plain() });
}

#[test]
fn find_tag_returns_the_first_carrier() {
    let notes = vec![
        plain(),
        NoteTags { next_phrase: true, ..plain() },
        NoteTags { next_phrase: true, melody: true, ..plain() },
    ];
    assert_eq!(find_tag(&notes, Tag::NextPhrase), Some(1));
    assert_eq!(find_tag(&notes, Tag::Melody), Some(2));
    assert_eq!(find_tag(&notes, Tag::Bass), None);
    assert_eq!(find_tag(&Vec::new(), Tag::First), None);
    assert!(notes[2].contains(Tag::Melody));
    assert!(!notes[0].contains(Tag::Percussion));
}

#[test]
fn concat_keeps_order() {
    assert_eq!(music_sandbox::voicing::concat(vec![1, 2], vec![3]), vec![1, 2, 3]);
    assert_eq!(music_sandbox::voicing::concat(Vec::<i32>::new(), vec![4]), vec![4]);
    assert_eq!(music_sandbox::voicing::concat(vec![5], Vec::new()), vec![5]);
}

//! How tagged phrase notes are voiced: the tags that the voicing reads, the
//! velocities and instruments they select, and the lookup of tagged notes.
use vstd::prelude::*;

verus! {

/// The tags of a phrase note that the voicing reads.
#[derive(Clone, Copy, PartialEq, Eq, Debug)]
pub enum Tag {
    Melody,
    First,
    Emphasis,
    Weakened,
    Percussion,
    Bass,
    NextPhrase,
}

/// Which of the tags that the voicing reads a phrase note carries.
#[derive(Clone, Copy, PartialEq, Eq, Debug)]
pub struct NoteTags {
    pub melody: bool,
    pub first: bool,
    pub emphasis: bool,
    pub weakened: bool,
    pub percussion: bool,
    pub bass: bool,
    pub next_phrase: bool,
}

/// Whether `tags` holds `tag`.
pub open spec fn carries(tags: NoteTags, tag: Tag) -> bool {
    match tag {
        Tag::Melody => tags.melody,
        Tag::First => tags.first,
        Tag::Emphasis => tags.emphasis,
        Tag::Weakened => tags.weakened,
        Tag::Percussion => tags.percussion,
        Tag::Bass => tags.bass,
        Tag::NextPhrase => tags.next_phrase,
    }
}

impl NoteTags {
    /// Whether the note carries `tag`.
    pub fn contains(&self, tag: Tag) -> (held: bool)
        ensures
            held == carries(*self, tag),
    {
        match tag {
            Tag::Melody => self.melody,
            Tag::First => self.first,
            Tag::Emphasis => self.emphasis,
            Tag::Weakened => self.weakened,
            Tag::Percussion => self.percussion,
            Tag::Bass => self.bass,
            Tag::NextPhrase => self.next_phrase,
        }
    }
}

/// The index of the first of `collection` that carries `item`, or `None`
/// when none does (the caller then falls back to a default note).
pub fn find_tag(collection: &Vec<NoteTags>, item: Tag) -> (found: Option<usize>)
    ensures
        match found {
            Some(i) => {
                &&& i < collection@.len()
                &&& carries(collection@[i as int], item)
                &&& forall|j: int| 0 <= j < i ==> !carries(#[trigger] collection@[j], item)
            },
            None => forall|j: int|
                0 <= j < collection@.len() ==> !carries(#[trigger] collection@[j], item),
        },
{
    let mut i: usize = 0;
    while i < collection.len()
        invariant
            i <= collection@.len(),
            forall|j: int| 0 <= j < i ==> !carries(#[trigger] collection@[j], item),
        decreases collection.len() - i,
    {
        if collection[i].contains(item) {
            return Some(i);
        }
        i = i + 1;
    }
    None
}

/// `first` followed by `second`.
pub fn concat<T>(first: Vec<T>, second: Vec<T>) -> (joined: Vec<T>)
    ensures
        joined@ == first@ + second@,
{
    let mut joined = first;
    let mut rest = second;
    joined.append(&mut rest);
    joined
}

/// The tags of an arising note after the watcher weakens it: a melody note
/// that is not the first becomes weakened; other notes keep their tags.
pub open spec fn weakened_tags(tags: NoteTags) -> NoteTags {
    if tags.melody && !tags.first {
        NoteTags { weakened: true, ..tags }
    } else {
        tags
    }
}

/// The tags of an arising note after the watcher weakens it.
pub fn weaken_arising(tags: NoteTags) -> (weakened: NoteTags)
    ensures
        weakened.weakened == (tags.weakened || (tags.melody && !tags.first)),
        weakened.melody == tags.melody,
        weakened.first == tags.first,
        weakened.emphasis == tags.emphasis,
        weakened.percussion == tags.percussion,
        weakened.bass == tags.bass,
        weakened.next_phrase == tags.next_phrase,
        weakened == weakened_tags(tags),
{
    if tags.melody && !tags.first {
        NoteTags { weakened: true, ..tags }
    } else {
        tags
    }
}

/// Law: weakening touches only the weakened tag. A later melody note (one
/// not tagged first) gains it, every other note keeps it as it was, and
/// every other tag stays as it was.
pub proof fn lemma_weakening_only_adds_weakened(tags: NoteTags)
    ensures
        carries(weakened_tags(tags), Tag::Weakened) == (carries(tags, Tag::Weakened) || (
        carries(tags, Tag::Melody) && !carries(tags, Tag::First))),
        forall|tag: Tag|
            tag != Tag::Weakened ==> carries(weakened_tags(tags), tag) == carries(tags, tag),
{
}

/// The tags of a note once its next-phrase marker is removed.
pub fn without_next_phrase(tags: NoteTags) -> (cleared: NoteTags)
    ensures
        cleared == (NoteTags { next_phrase: false, ..tags }),
{
    NoteTags { next_phrase: false, ..tags }
}

/// The watcher's velocity: 120 for an emphasised note, else 60 for a
/// weakened one, else 90.
pub fn watcher_velocity(tags: NoteTags) -> (velocity: i32)
    ensures
        velocity == (if tags.emphasis {
            120i32
        } else if tags.weakened {
            60i32
        } else {
            90i32
        }),
{
    if tags.emphasis {
        120
    } else if tags.weakened {
        60
    } else {
        90
    }
}

/// The MIDI instrument of a pitched note: 57 for a melody note, else 43.
pub fn pitched_instrument(tags: NoteTags) -> (instrument: i32)
    ensures
        instrument == (if tags.melody { 57i32 } else { 43i32 }),
{
    if tags.melody {
        57
    } else {
        43
    }
}

/// The percussion instrument the watcher plays for the MIDI pitch nearest to
/// a percussion note: its table maps pitch 30 to instrument 40; any other
/// pitch plays instrument 35.
pub fn percussion_instrument(pitch: i32) -> (instrument: i32)
    ensures
        instrument == (if pitch == 30 { 40i32 } else { 35i32 }),
{
    if pitch == 30 {
        40
    } else {
        35
    }
}

/// The input playground's velocity for an arising note: 90 for the first,
/// else 60.
pub fn arising_velocity(tags: NoteTags) -> (velocity: i32)
    ensures
        velocity == (if tags.first { 90i32 } else { 60i32 }),
{
    if tags.first {
        90
    } else {
        60
    }
}

/// The input playground's velocity for a striking note: 120 when
/// emphasised, else 90.
pub fn striking_velocity(tags: NoteTags) -> (velocity: i32)
    ensures
        velocity == (if tags.emphasis { 120i32 } else { 90i32 }),
{
    if tags.emphasis {
        120
    } else {
        90
    }
}

} // verus!

//! How the watcher and the input playground arrange the notes of the
//! "arising" and "striking" phrases: which source note is played where, with
//! which tags, delays and transpositions. The notes' own times stay with the
//! phrases; an arrangement only names them.
use vstd::prelude::*;
use crate::voicing::{
    carries, find_tag, weaken_arising, weakened_tags, without_next_phrase, NoteTags, Tag,
};

verus! {

/// The phrase a placed note comes from.
#[derive(Clone, Copy, PartialEq, Eq, Debug)]
pub enum Section {
    Arising,
    Striking,
}

/// A note of the watcher's output: note `index` of `section`, played with
/// `tags`; in the second pass when `second_pass`.
#[derive(Clone, Copy, PartialEq, Eq, Debug)]
pub struct WatcherNote {
    pub section: Section,
    pub index: usize,
    pub tags: NoteTags,
    pub second_pass: bool,
}

/// The watcher's arrangement. The first pass plays every arising note, then
/// every striking note delayed by the start of arising note `striking_anchor`
/// (no delay when there is none); the second pass plays the first pass again,
/// delayed by the start of first-pass note `repeat_anchor` (no delay when
/// there is none).
#[derive(Debug)]
pub struct WatcherPlan {
    pub notes: Vec<WatcherNote>,
    pub striking_anchor: Option<usize>,
    pub repeat_anchor: Option<usize>,
}

/// `found` is the index of the first of `notes` carrying `tag`, or `None`
/// when none does.
pub open spec fn first_carrier(notes: Seq<NoteTags>, tag: Tag, found: Option<usize>) -> bool {
    match found {
        Some(i) => {
            &&& i < notes.len()
            &&& carries(notes[i as int], tag)
            &&& forall|j: int| 0 <= j < i ==> !carries(#[trigger] notes[j], tag)
        },
        None => forall|j: int| 0 <= j < notes.len() ==> !carries(#[trigger] notes[j], tag),
    }
}

/// The tags of an arising note as the watcher plays it: weakened when it is
/// a later melody note, without its next-phrase marker.
pub open spec fn played_arising(tags: NoteTags) -> NoteTags {
    NoteTags { next_phrase: false, ..weakened_tags(tags) }
}

/// The watcher's first pass over `arising` and `striking` tags.
pub open spec fn first_pass(arising: Seq<NoteTags>, striking: Seq<NoteTags>) -> Seq<WatcherNote> {
    Seq::new(
        arising.len(),
        |i: int|
            WatcherNote {
                section: Section::Arising,
                index: i as usize,
                tags: played_arising(arising[i]),
                second_pass: false,
            },
    ) + Seq::new(
        striking.len(),
        |j: int|
            WatcherNote {
                section: Section::Striking,
                index: j as usize,
                tags: striking[j],
                second_pass: false,
            },
    )
}

/// `pass` played again as the second pass.
pub open spec fn second_pass(pass: Seq<WatcherNote>) -> Seq<WatcherNote> {
    pass.map_values(|n: WatcherNote| WatcherNote { second_pass: true, ..n })
}

/// The watcher's arrangement of the arising and striking phrases, given the
/// tags of their notes.
pub fn watcher_plan(arising: &Vec<NoteTags>, striking: &Vec<NoteTags>) -> (plan: WatcherPlan)
    ensures
        plan.notes@ == first_pass(arising@, striking@) + second_pass(first_pass(arising@, striking@)),
        first_carrier(
            arising@.map_values(|t: NoteTags| weakened_tags(t)),
            Tag::NextPhrase,
            plan.striking_anchor,
        ),
        first_carrier(
            first_pass(arising@, striking@).map_values(|n: WatcherNote| n.tags),
            Tag::NextPhrase,
            plan.repeat_anchor,
        ),
{
    let mut weakened: Vec<NoteTags> = Vec::new();
    let mut first: Vec<WatcherNote> = Vec::new();
    let mut first_tags: Vec<NoteTags> = Vec::new();
    let mut i: usize = 0;
    while i < arising.len()
        invariant
            i <= arising@.len(),
            weakened@ == arising@.take(i as int).map_values(|t: NoteTags| weakened_tags(t)),
            first@ == first_pass(arising@, striking@).take(i as int),
            first_tags@ == first@.map_values(|n: WatcherNote| n.tags),
        decreases arising.len() - i,
    {
        let tags = weaken_arising(arising[i]);
        weakened.push(tags);
        let note = WatcherNote {
            section: Section::Arising,
            index: i,
            tags: without_next_phrase(tags),
            second_pass: false,
        };
        first.push(note);
        first_tags.push(note.tags);
        proof {
            assert(weakened@ =~= arising@.take(i + 1).map_values(|t: NoteTags| weakened_tags(t)));
            assert(first@ =~= first_pass(arising@, striking@).take(i + 1));
            assert(first_tags@ =~= first@.map_values(|n: WatcherNote| n.tags));
        }
        i = i + 1;
    }
    let mut j: usize = 0;
    while j < striking.len()
        invariant
            i == arising@.len(),
            j <= striking@.len(),
            weakened@ == arising@.map_values(|t: NoteTags| weakened_tags(t)),
            first@ == first_pass(arising@, striking@).take(i + j),
            first_tags@ == first@.map_values(|n: WatcherNote| n.tags),
        decreases striking.len() - j,
    {
        let note = WatcherNote { section: Section::Striking, index: j, tags: striking[j], second_pass: false };
        first.push(note);
        first_tags.push(note.tags);
        proof {
            assert(first@ =~= first_pass(arising@, striking@).take(i + j + 1));
            assert(first_tags@ =~= first@.map_values(|n: WatcherNote| n.tags));
        }
        j = j + 1;
    }
    assert(first@ =~= first_pass(arising@, striking@));
    let striking_anchor = find_tag(&weakened, Tag::NextPhrase);
    let repeat_anchor = find_tag(&first_tags, Tag::NextPhrase);
    let mut notes: Vec<WatcherNote> = Vec::new();
    let mut k: usize = 0;
    while k < first.len()
        invariant
            k <= first@.len(),
            notes@ == first@.take(k as int),
        decreases first.len() - k,
    {
        notes.push(first[k]);
        proof {
            assert(notes@ =~= first@.take(k + 1));
        }
        k = k + 1;
    }
    let mut k: usize = 0;
    while k < first.len()
        invariant
            k <= first@.len(),
            notes@ == first@ + second_pass(first@).take(k as int),
        decreases first.len() - k,
    {
        let again = WatcherNote { second_pass: true, ..first[k] };
        notes.push(again);
        proof {
            assert(notes@ =~= first@ + second_pass(first@).take(k + 1));
        }
        k = k + 1;
    }
    assert(second_pass(first@).take(first@.len() as int) =~= second_pass(first@));
    assert(first@.take(first@.len() as int) =~= first@);
    WatcherPlan { notes, striking_anchor, repeat_anchor }
}

/// Law: the first pass plays every arising note, in order, and then every
/// striking note, in order. A striking note keeps exactly the tags of its
/// input note. An arising note keeps every tag of its input note but two:
/// its next-phrase marker is cleared, and it is weakened when it is a later
/// melody note (one not tagged first). The second pass repeats the first,
/// note for note.
pub proof fn lemma_watcher_passes(arising: Seq<NoteTags>, striking: Seq<NoteTags>)
    requires
        arising.len() <= usize::MAX,
        striking.len() <= usize::MAX,
    ensures
        first_pass(arising, striking).len() == arising.len() + striking.len(),
        forall|j: int|
            0 <= j < striking.len() ==> {
                let note = #[trigger] first_pass(arising, striking)[arising.len() + j];
                &&& note.section == Section::Striking
                &&& note.index == j
                &&& note.tags == striking[j]
                &&& !note.second_pass
            },
        forall|i: int|
            0 <= i < arising.len() ==> {
                let note = #[trigger] first_pass(arising, striking)[i];
                let input = arising[i];
                &&& note.section == Section::Arising
                &&& note.index == i
                &&& !note.second_pass
                &&& !note.tags.next_phrase
                &&& note.tags.weakened == (input.weakened || (input.melody && !input.first))
                &&& note.tags.melody == input.melody
                &&& note.tags.first == input.first
                &&& note.tags.emphasis == input.emphasis
                &&& note.tags.percussion == input.percussion
                &&& note.tags.bass == input.bass
            },
        second_pass(first_pass(arising, striking)).len() == first_pass(arising, striking).len(),
        forall|n: int|
            0 <= n < first_pass(arising, striking).len() ==> #[trigger] second_pass(
                first_pass(arising, striking),
            )[n] == (WatcherNote { second_pass: true, ..first_pass(arising, striking)[n] }),
{
    let pass = first_pass(arising, striking);
    let arisen = Seq::new(
        arising.len(),
        |i: int|
            WatcherNote {
                section: Section::Arising,
                index: i as usize,
                tags: played_arising(arising[i]),
                second_pass: false,
            },
    );
    let struck = Seq::new(
        striking.len(),
        |j: int|
            WatcherNote {
                section: Section::Striking,
                index: j as usize,
                tags: striking[j],
                second_pass: false,
            },
    );
    assert(pass == arisen + struck);
    assert forall|j: int| 0 <= j < striking.len() implies #[trigger] pass[arising.len() + j]
        == struck[j] by {}
    assert forall|i: int| 0 <= i < arising.len() implies #[trigger] pass[i] == arisen[i] by {}
}

/// Law: the input playground's reprise raises an arising note by
/// `BASS_TRANSPOSE` exactly when that note is tagged bass; every other
/// placement is untransposed.
pub proof fn lemma_reprise_raises_the_bass(arising: Seq<NoteTags>, striking_count: nat)
    requires
        arising.len() <= usize::MAX,
    ensures
        forall|i: int|
            0 <= i < arising.len() ==> (input_arrangement_of(arising, striking_count).contains(
                InputPlacement {
                    section: Section::Arising,
                    index: i as usize,
                    reprise: true,
                    transpose: BASS_TRANSPOSE,
                },
            ) <==> #[trigger] arising[i].bass),
        forall|n: int|
            0 <= n < input_arrangement_of(arising, striking_count).len()
                && #[trigger] input_arrangement_of(arising, striking_count)[n].transpose != 0
                ==> {
                let p = input_arrangement_of(arising, striking_count)[n];
                &&& p.section == Section::Arising
                &&& p.reprise
                &&& p.transpose == BASS_TRANSPOSE
                &&& p.index < arising.len()
                &&& arising[p.index as int].bass
            },
{
    let whole = input_arrangement_of(arising, striking_count);
    let head = run(Section::Arising, arising.len(), false, 0) + run(
        Section::Striking,
        striking_count,
        false,
        0,
    ) + run(Section::Arising, arising.len(), true, 0);
    let bass = bass_run(arising);
    let tail = run(Section::Striking, striking_count, true, 0);
    lemma_bass_run(arising);
    assert(whole == head + bass + tail);
    assert forall|i: int| 0 <= i < arising.len() implies (whole.contains(
        InputPlacement {
            section: Section::Arising,
            index: i as usize,
            reprise: true,
            transpose: BASS_TRANSPOSE,
        },
    ) <==> #[trigger] arising[i].bass) by {
        let target = InputPlacement {
            section: Section::Arising,
            index: i as usize,
            reprise: true,
            transpose: BASS_TRANSPOSE,
        };
        if arising[i].bass {
            let b = choose|b: int| 0 <= b < bass.len() && bass[b] == target;
            assert(whole[head.len() + b] == target);
        }
        if whole.contains(target) {
            let n = choose|n: int| 0 <= n < whole.len() && whole[n] == target;
            if n < head.len() {
                assert(whole[n] == head[n]);
            } else if n < head.len() + bass.len() {
                assert(whole[n] == bass[n - head.len()]);
            } else {
                assert(whole[n] == tail[n - head.len() - bass.len()]);
            }
        }
    }
    assert forall|n: int|
        0 <= n < whole.len() && #[trigger] whole[n].transpose != 0 implies {
        let p = whole[n];
        &&& p.section == Section::Arising
        &&& p.reprise
        &&& p.transpose == BASS_TRANSPOSE
        &&& p.index < arising.len()
        &&& arising[p.index as int].bass
    } by {
        if n < head.len() {
            assert(whole[n] == head[n]);
        } else if n < head.len() + bass.len() {
            assert(whole[n] == bass[n - head.len()]);
        } else {
            assert(whole[n] == tail[n - head.len() - bass.len()]);
        }
    }
}

/// Law: the input playground plays the arising phrase, then the striking
/// phrase, untransposed; then, in the reprise, the arising phrase again,
/// the arising phrase's bass notes in order raised by `BASS_TRANSPOSE`, and
/// the striking phrase again.
pub proof fn lemma_input_arrangement_layout(arising: Seq<NoteTags>, striking_count: nat)
    requires
        arising.len() <= usize::MAX,
        striking_count <= usize::MAX,
    ensures
        ({
            let whole = input_arrangement_of(arising, striking_count);
            let a = arising.len() as int;
            let c = striking_count as int;
            &&& whole.len() >= 2 * a + 2 * c
            &&& forall|i: int|
                0 <= i < a ==> #[trigger] whole[i] == (InputPlacement {
                    section: Section::Arising,
                    index: i as usize,
                    reprise: false,
                    transpose: 0,
                })
            &&& forall|j: int|
                0 <= j < c ==> #[trigger] whole[a + j] == (InputPlacement {
                    section: Section::Striking,
                    index: j as usize,
                    reprise: false,
                    transpose: 0,
                })
            &&& forall|i: int|
                0 <= i < a ==> #[trigger] whole[a + c + i] == (InputPlacement {
                    section: Section::Arising,
                    index: i as usize,
                    reprise: true,
                    transpose: 0,
                })
            &&& forall|n: int|
                2 * a + c <= n < whole.len() - c ==> (#[trigger] whole[n]).transpose
                    == BASS_TRANSPOSE
            &&& forall|n: int, m: int|
                2 * a + c <= n < m < whole.len() - c ==> (#[trigger] whole[n]).index
                    < (#[trigger] whole[m]).index
            &&& forall|j: int|
                0 <= j < c ==> #[trigger] whole[whole.len() - c + j] == (InputPlacement {
                    section: Section::Striking,
                    index: j as usize,
                    reprise: true,
                    transpose: 0,
                })
        }),
{
    let a = arising.len() as int;
    let c = striking_count as int;
    let r1 = run(Section::Arising, arising.len(), false, 0);
    let r2 = run(Section::Striking, striking_count, false, 0);
    let r3 = run(Section::Arising, arising.len(), true, 0);
    let bass = bass_run(arising);
    let r4 = run(Section::Striking, striking_count, true, 0);
    let whole = input_arrangement_of(arising, striking_count);
    lemma_bass_run(arising);
    assert(whole == r1 + r2 + r3 + bass + r4);
    assert forall|i: int| 0 <= i < a implies #[trigger] whole[i] == r1[i] by {}
    assert forall|j: int| 0 <= j < c implies #[trigger] whole[a + j] == r2[j] by {}
    assert forall|i: int| 0 <= i < a implies #[trigger] whole[a + c + i] == r3[i] by {}
    assert forall|n: int| 2 * a + c <= n < whole.len() - c implies #[trigger] whole[n] == bass[n
        - 2 * a - c] by {}
    assert forall|n: int, m: int|
        2 * a + c <= n < m < whole.len() - c implies (#[trigger] whole[n]).index
            < (#[trigger] whole[m]).index by {
        assert(whole[n] == bass[n - 2 * a - c]);
        assert(whole[m] == bass[m - 2 * a - c]);
    }
    assert forall|j: int| 0 <= j < c implies #[trigger] whole[whole.len() - c + j] == r4[j] by {}
}

/// Every placement of `bass_run(arising)` raises a bass note of `arising`
/// in the reprise, and every bass note is raised.
proof fn lemma_bass_run(arising: Seq<NoteTags>)
    requires
        arising.len() <= usize::MAX,
    ensures
        forall|b: int|
            0 <= b < bass_run(arising).len() ==> {
                let p = #[trigger] bass_run(arising)[b];
                &&& p.section == Section::Arising
                &&& p.reprise
                &&& p.transpose == BASS_TRANSPOSE
                &&& p.index < arising.len()
                &&& arising[p.index as int].bass
            },
        forall|i: int|
            0 <= i < arising.len() && #[trigger] arising[i].bass ==> exists|b: int|
                0 <= b < bass_run(arising).len() && bass_run(arising)[b] == (InputPlacement {
                    section: Section::Arising,
                    index: i as usize,
                    reprise: true,
                    transpose: BASS_TRANSPOSE,
                }),
        forall|b: int, c: int|
            0 <= b < c < bass_run(arising).len() ==> #[trigger] bass_run(arising)[b].index
                < #[trigger] bass_run(arising)[c].index,
    decreases arising.len(),
{
    if arising.len() > 0 {
        let rest = arising.drop_last();
        let last = arising.len() - 1;
        lemma_bass_run(rest);
        let earlier = bass_run(rest);
        let added = if arising[last].bass {
            seq![
                InputPlacement {
                    section: Section::Arising,
                    index: last as usize,
                    reprise: true,
                    transpose: BASS_TRANSPOSE,
                },
            ]
        } else {
            Seq::empty()
        };
        assert(bass_run(arising) == earlier + added);
        assert forall|b: int| 0 <= b < bass_run(arising).len() implies {
            let p = #[trigger] bass_run(arising)[b];
            &&& p.section == Section::Arising
            &&& p.reprise
            &&& p.transpose == BASS_TRANSPOSE
            &&& p.index < arising.len()
            &&& arising[p.index as int].bass
        } by {
            if b < earlier.len() {
                assert(bass_run(arising)[b] == earlier[b]);
                assert(arising[earlier[b].index as int] == rest[earlier[b].index as int]);
            } else {
                assert(bass_run(arising)[b] == added[b - earlier.len()]);
            }
        }
        assert forall|i: int| 0 <= i < arising.len() && #[trigger] arising[i].bass implies exists|b: int|
            0 <= b < bass_run(arising).len() && bass_run(arising)[b] == (InputPlacement {
                section: Section::Arising,
                index: i as usize,
                reprise: true,
                transpose: BASS_TRANSPOSE,
            }) by {
            if i < last {
                assert(rest[i] == arising[i]);
                let b = choose|b: int| 0 <= b < earlier.len() && earlier[b] == (InputPlacement {
                    section: Section::Arising,
                    index: i as usize,
                    reprise: true,
                    transpose: BASS_TRANSPOSE,
                });
                assert(bass_run(arising)[b] == earlier[b]);
            } else {
                assert(bass_run(arising)[earlier.len() as int] == added[0]);
            }
        }
        assert forall|b: int, c: int|
            0 <= b < c < bass_run(arising).len() implies #[trigger] bass_run(arising)[b].index
                < #[trigger] bass_run(arising)[c].index by {
            assert(bass_run(arising)[b] == earlier[b]);
            if c < earlier.len() {
                assert(bass_run(arising)[c] == earlier[c]);
            } else {
                assert(bass_run(arising)[c] == added[c - earlier.len()]);
                assert(earlier[b].index < rest.len());
            }
        }
    }
}

/// A note of the input playground: note `index` of `section`, in the
/// reprise when `reprise`, transposed by `transpose` semitones. An arising
/// note is first shrunk to three quarters of its time around time zero; a
/// striking note is delayed by `STRIKING_DELAY_QUARTERS` quarter seconds; a
/// note of the reprise is then delayed by `REPRISE_DELAY_QUARTERS` more.
#[derive(Clone, Copy, PartialEq, Eq, Debug)]
pub struct InputPlacement {
    pub section: Section,
    pub index: usize,
    pub reprise: bool,
    pub transpose: i32,
}

/// Quarter seconds by which the striking phrase follows the arising one.
pub const STRIKING_DELAY_QUARTERS: u32 = 12;

/// Quarter seconds by which the reprise follows the first statement.
pub const REPRISE_DELAY_QUARTERS: u32 = 29;

/// Semitones by which the bass is raised in the reprise.
pub const BASS_TRANSPOSE: i32 = 7;

/// Every note of a `count`-note phrase in order, placed alike.
pub open spec fn run(section: Section, count: nat, reprise: bool, transpose: i32) -> Seq<InputPlacement> {
    Seq::new(count, |i: int| InputPlacement { section, index: i as usize, reprise, transpose })
}

/// The arising notes tagged bass, in order, in the reprise and raised by
/// `BASS_TRANSPOSE`.
pub open spec fn bass_run(arising: Seq<NoteTags>) -> Seq<InputPlacement>
    decreases arising.len(),
{
    if arising.len() == 0 {
        Seq::empty()
    } else {
        let last = (arising.len() - 1) as int;
        bass_run(arising.drop_last()) + if arising[last].bass {
            seq![
                InputPlacement {
                    section: Section::Arising,
                    index: last as usize,
                    reprise: true,
                    transpose: BASS_TRANSPOSE,
                },
            ]
        } else {
            Seq::empty()
        }
    }
}

/// The input playground's arrangement: the arising phrase, then the striking
/// phrase; then the reprise: the arising phrase again, its bass notes once
/// more raised by a fifth, and the striking phrase again.
pub open spec fn input_arrangement_of(arising: Seq<NoteTags>, striking_count: nat) -> Seq<InputPlacement> {
    run(Section::Arising, arising.len(), false, 0) + run(Section::Striking, striking_count, false, 0)
        + run(Section::Arising, arising.len(), true, 0) + bass_run(arising) + run(
        Section::Striking,
        striking_count,
        true,
        0,
    )
}

fn push_run(out: &mut Vec<InputPlacement>, section: Section, count: usize, reprise: bool)
    ensures
        final(out)@ == old(out)@ + run(section, count as nat, reprise, 0),
{
    let ghost before = out@;
    let mut i: usize = 0;
    while i < count
        invariant
            i <= count,
            out@ == before + run(section, i as nat, reprise, 0),
        decreases count - i,
    {
        out.push(InputPlacement { section, index: i, reprise, transpose: 0 });
        proof {
            assert(out@ =~= before + run(section, (i + 1) as nat, reprise, 0));
        }
        i = i + 1;
    }
}

/// The input playground's arrangement of an arising phrase with tags
/// `arising` and a striking phrase of `striking_count` notes.
pub fn input_arrangement(arising: &Vec<NoteTags>, striking_count: usize) -> (placements: Vec<InputPlacement>)
    ensures
        placements@ == input_arrangement_of(arising@, striking_count as nat),
{
    let mut out: Vec<InputPlacement> = Vec::new();
    push_run(&mut out, Section::Arising, arising.len(), false);
    push_run(&mut out, Section::Striking, striking_count, false);
    push_run(&mut out, Section::Arising, arising.len(), true);
    let ghost before = out@;
    let mut i: usize = 0;
    while i < arising.len()
        invariant
            i <= arising@.len(),
            out@ == before + bass_run(arising@.take(i as int)),
        decreases arising.len() - i,
    {
        if arising[i].bass {
            out.push(
                InputPlacement {
                    section: Section::Arising,
                    index: i,
                    reprise: true,
                    transpose: BASS_TRANSPOSE,
                },
            );
        }
        proof {
            assert(arising@.take(i + 1).drop_last() =~= arising@.take(i as int));
            assert(out@ =~= before + bass_run(arising@.take(i + 1)));
        }
        i = i + 1;
    }
    assert(arising@.take(arising@.len() as int) =~= arising@);
    push_run(&mut out, Section::Striking, striking_count, true);
    out
}

} // verus!

//! Patterns: trees of sub-patterns, each placed at an offset inside its
//! parent, whose leaves are notes; and their assembly into notes with
//! absolute start times.
use vstd::prelude::*;

verus! {

/// What a leaf of a pattern plays when it is placed at a time.
#[derive(Clone, Copy, PartialEq, Eq, Debug)]
pub enum NoteKind {
    /// A MIDI percussion hit of one second.
    Percussion { velocity: i32, instrument: i32 },
    /// A sine tone lasting `duration` ticks; its pitch comes from the unit
    /// draw whose double has bit pattern `tone_draw`, its loudness from the
    /// number of voices `duplicates` that share the pattern.
    Sine { duration: u64, duplicates: i32, tone_draw: u64 },
}

/// The body of a pattern: sub-patterns, or the notes of a leaf.
#[derive(Debug)]
pub enum PatternType {
    Assemblage(Vec<Pattern>),
    Notes(NoteKind),
}

/// A pattern spanning `duration` ticks, placed `offset` ticks after the
/// start of whatever holds it.
#[derive(Debug)]
pub struct Pattern {
    pub duration: u64,
    pub offset: u64,
    pub pattern_type: PatternType,
}

/// A note with the absolute tick at which it starts.
#[derive(Clone, Copy, PartialEq, Eq, Debug)]
pub struct ScheduledNote {
    pub start: u128,
    pub kind: NoteKind,
}

/// Mathematical form of a pattern.
pub struct PatternModel {
    pub duration: int,
    pub offset: int,
    pub body: BodyModel,
}

/// Mathematical form of a pattern's body.
pub enum BodyModel {
    Assemblage(Seq<PatternModel>),
    Notes(NoteKind),
}

/// The mathematical form of `p`.
pub open spec fn model(p: Pattern) -> PatternModel
    decreases p, 1int,
{
    PatternModel {
        duration: p.duration as int,
        offset: p.offset as int,
        body: match p.pattern_type {
            PatternType::Assemblage(parts) => BodyModel::Assemblage(models(parts@)),
            PatternType::Notes(kind) => BodyModel::Notes(kind),
        },
    }
}

/// The mathematical forms of the patterns of `ps`, in order.
pub open spec fn models(ps: Seq<Pattern>) -> Seq<PatternModel>
    decreases ps, 0int,
{
    if ps.len() == 0 {
        Seq::empty()
    } else {
        models(ps.drop_last()).push(model(ps.last()))
    }
}

/// A note as a start time and what it plays.
pub open spec fn note_model(n: ScheduledNote) -> (int, NoteKind) {
    (n.start as int, n.kind)
}

/// The notes of pattern `m` placed in something that starts at `origin`:
/// every leaf, in order from first to last part, starting at `origin` plus
/// the offsets of the leaf and of all patterns above it.
pub open spec fn assembled(m: PatternModel, origin: int) -> Seq<(int, NoteKind)>
    decreases m, 1int,
{
    match m.body {
        BodyModel::Notes(kind) => seq![(origin + m.offset, kind)],
        BodyModel::Assemblage(parts) => assembled_parts(parts, origin + m.offset),
    }
}

/// The notes of the patterns `parts`, one after another, all placed in
/// something that starts at `origin`.
pub open spec fn assembled_parts(parts: Seq<PatternModel>, origin: int) -> Seq<(int, NoteKind)>
    decreases parts, 0int,
{
    if parts.len() == 0 {
        Seq::empty()
    } else {
        assembled_parts(parts.drop_last(), origin) + assembled(parts.last(), origin)
    }
}

/// The largest sum of offsets from `m` down to one of its leaves.
pub open spec fn reach(m: PatternModel) -> int
    decreases m, 1int,
{
    match m.body {
        BodyModel::Notes(_) => m.offset,
        BodyModel::Assemblage(parts) => m.offset + reach_parts(parts),
    }
}

/// The largest reach among `parts`, or zero when there is none.
pub open spec fn reach_parts(parts: Seq<PatternModel>) -> int
    decreases parts, 0int,
{
    if parts.len() == 0 {
        0
    } else {
        let before = reach_parts(parts.drop_last());
        let last = reach(parts.last());
        if before < last { last } else { before }
    }
}

/// `notes` with every start time moved `delay` ticks later.
pub open spec fn delayed_notes(notes: Seq<(int, NoteKind)>, delay: int) -> Seq<(int, NoteKind)> {
    notes.map_values(|n: (int, NoteKind)| (n.0 + delay, n.1))
}

/// Every pattern spans a positive time, sits at a non-negative offset, and
/// each of its parts ends no later than the pattern's span.
pub open spec fn well_timed(m: PatternModel) -> bool
    decreases m, 1int,
{
    &&& m.duration > 0
    &&& m.offset >= 0
    &&& match m.body {
        BodyModel::Notes(_) => true,
        BodyModel::Assemblage(parts) => parts_fit(parts, m.duration),
    }
}

/// Each of `parts` is well timed and ends within `span` ticks.
pub open spec fn parts_fit(parts: Seq<PatternModel>, span: int) -> bool
    decreases parts, 0int,
{
    parts.len() == 0 || {
        &&& parts_fit(parts.drop_last(), span)
        &&& well_timed(parts.last())
        &&& parts.last().offset + parts.last().duration <= span
    }
}

/// Law: placing a pattern `delay` ticks later moves each of its notes
/// `delay` ticks later and changes nothing else.
pub proof fn lemma_assembly_delays(m: PatternModel, origin: int, delay: int)
    ensures
        assembled(m, origin + delay) == delayed_notes(assembled(m, origin), delay),
    decreases m, 1int,
{
    match m.body {
        BodyModel::Notes(kind) => {
            assert(assembled(m, origin + delay) =~= delayed_notes(assembled(m, origin), delay));
        },
        BodyModel::Assemblage(parts) => {
            assert(origin + delay + m.offset == origin + m.offset + delay);
            lemma_assembly_parts_delays(parts, origin + m.offset, delay);
        },
    }
}

proof fn lemma_assembly_parts_delays(parts: Seq<PatternModel>, origin: int, delay: int)
    ensures
        assembled_parts(parts, origin + delay) == delayed_notes(
            assembled_parts(parts, origin),
            delay,
        ),
    decreases parts, 0int,
{
    if parts.len() == 0 {
        assert(delayed_notes(Seq::empty(), delay) =~= Seq::<(int, NoteKind)>::empty());
    } else {
        lemma_assembly_parts_delays(parts.drop_last(), origin, delay);
        lemma_assembly_delays(parts.last(), origin, delay);
        let front = assembled_parts(parts.drop_last(), origin);
        let back = assembled(parts.last(), origin);
        assert(delayed_notes(front + back, delay) =~= delayed_notes(front, delay) + delayed_notes(
            back,
            delay,
        ));
    }
}

/// Every note of `notes` starts at or after `from` and before `until`.
pub open spec fn starts_within(notes: Seq<(int, NoteKind)>, from: int, until: int) -> bool {
    forall|i: int| 0 <= i < notes.len() ==> from <= #[trigger] notes[i].0 && notes[i].0 < until
}

/// Law: every note of a well-timed pattern placed at `origin` starts within
/// the pattern's own span, which begins at `origin` plus its offset.
pub proof fn lemma_notes_within_span(m: PatternModel, origin: int)
    requires
        well_timed(m),
    ensures
        starts_within(assembled(m, origin), origin + m.offset, origin + m.offset + m.duration),
    decreases m, 1int,
{
    match m.body {
        BodyModel::Notes(kind) => {
            assert(assembled(m, origin) == seq![(origin + m.offset, kind)]);
        },
        BodyModel::Assemblage(parts) => {
            lemma_parts_within_span(parts, origin + m.offset, m.duration);
        },
    }
}

proof fn lemma_parts_within_span(parts: Seq<PatternModel>, origin: int, span: int)
    requires
        parts_fit(parts, span),
    ensures
        starts_within(assembled_parts(parts, origin), origin, origin + span),
    decreases parts, 0int,
{
    if parts.len() > 0 {
        let front = assembled_parts(parts.drop_last(), origin);
        let back = assembled(parts.last(), origin);
        let last = parts.last();
        lemma_parts_within_span(parts.drop_last(), origin, span);
        lemma_notes_within_span(last, origin);
        assert(well_timed(last) && last.offset + last.duration <= span);
        assert(last.offset >= 0);
        assert forall|i: int| 0 <= i < (front + back).len() implies origin <= #[trigger] (front
            + back)[i].0 && (front + back)[i].0 < origin + span by {
            if i >= front.len() {
                let j = i - front.len();
                assert((front + back)[i] == back[j]);
                assert(origin + last.offset <= back[j].0 && back[j].0 < origin + last.offset
                    + last.duration);
            } else {
                assert((front + back)[i] == front[i]);
            }
        }
    }
}

/// Every sine tone that a leaf of `m` plays lasts no longer than that leaf.
pub open spec fn sines_fit(m: PatternModel) -> bool
    decreases m, 1int,
{
    match m.body {
        BodyModel::Notes(NoteKind::Sine { duration, .. }) => duration <= m.duration,
        BodyModel::Notes(_) => true,
        BodyModel::Assemblage(parts) => parts_sines_fit(parts),
    }
}

/// Every sine tone of the patterns of `parts` lasts no longer than its leaf.
pub open spec fn parts_sines_fit(parts: Seq<PatternModel>) -> bool
    decreases parts, 0int,
{
    parts.len() == 0 || (parts_sines_fit(parts.drop_last()) && sines_fit(parts.last()))
}

/// Every sine tone of `notes` has ended by `until`.
pub open spec fn sines_end_by(notes: Seq<(int, NoteKind)>, until: int) -> bool {
    forall|i: int|
        0 <= i < notes.len() ==> (#[trigger] notes[i].1 matches NoteKind::Sine { duration, .. }
            ==> notes[i].0 + duration <= until)
}

/// Law: in a well-timed pattern whose sine tones fit their leaves, every
/// sine tone has ended by the end of the pattern's span.
pub proof fn lemma_sines_end_within_span(m: PatternModel, origin: int)
    requires
        well_timed(m),
        sines_fit(m),
    ensures
        sines_end_by(assembled(m, origin), origin + m.offset + m.duration),
    decreases m, 1int,
{
    match m.body {
        BodyModel::Notes(kind) => {
            assert(assembled(m, origin) == seq![(origin + m.offset, kind)]);
            assert forall|i: int| 0 <= i < assembled(m, origin).len() implies (
            #[trigger] assembled(m, origin)[i].1 matches NoteKind::Sine { duration, .. } ==> assembled(
                m,
                origin,
            )[i].0 + duration <= origin + m.offset + m.duration) by {
                assert(assembled(m, origin)[i] == (origin + m.offset, kind));
            }
        },
        BodyModel::Assemblage(parts) => {
            lemma_parts_sines_end(parts, origin + m.offset, m.duration);
        },
    }
}

proof fn lemma_parts_sines_end(parts: Seq<PatternModel>, origin: int, span: int)
    requires
        parts_fit(parts, span),
        parts_sines_fit(parts),
    ensures
        sines_end_by(assembled_parts(parts, origin), origin + span),
    decreases parts, 0int,
{
    if parts.len() > 0 {
        let front = assembled_parts(parts.drop_last(), origin);
        let back = assembled(parts.last(), origin);
        let last = parts.last();
        lemma_parts_sines_end(parts.drop_last(), origin, span);
        lemma_sines_end_within_span(last, origin);
        assert(well_timed(last) && last.offset + last.duration <= span);
        assert forall|i: int| 0 <= i < (front + back).len() implies (#[trigger] (front
            + back)[i].1 matches NoteKind::Sine { duration, .. } ==> (front + back)[i].0 + duration
            <= origin + span) by {
            if i >= front.len() {
                let j = i - front.len();
                assert((front + back)[i] == back[j]);
                assert(back[j].1 matches NoteKind::Sine { duration, .. } ==> back[j].0 + duration
                    <= origin + last.offset + last.duration);
            } else {
                assert((front + back)[i] == front[i]);
                assert(front[i].1 matches NoteKind::Sine { duration, .. } ==> front[i].0 + duration
                    <= origin + span);
            }
        }
    }
}

/// The notes of a well-timed pattern reach no further than its span.
pub proof fn lemma_reach_within_span(m: PatternModel)
    requires
        well_timed(m),
    ensures
        reach(m) < m.offset + m.duration,
    decreases m, 1int,
{
    match m.body {
        BodyModel::Notes(_) => {},
        BodyModel::Assemblage(parts) => {
            lemma_reach_parts_within(parts, m.duration);
        },
    }
}

proof fn lemma_reach_parts_within(parts: Seq<PatternModel>, span: int)
    requires
        parts_fit(parts, span),
        span > 0,
    ensures
        reach_parts(parts) < span,
    decreases parts, 0int,
{
    if parts.len() > 0 {
        lemma_reach_parts_within(parts.drop_last(), span);
        lemma_reach_within_span(parts.last());
    }
}

/// Every leaf of `m` plays a note that `p` holds of.
pub open spec fn leaves_all(m: PatternModel, p: spec_fn(NoteKind) -> bool) -> bool
    decreases m, 1int,
{
    match m.body {
        BodyModel::Notes(kind) => p(kind),
        BodyModel::Assemblage(parts) => parts_leaves_all(parts, p),
    }
}

/// Every leaf of every pattern of `parts` plays a note that `p` holds of.
pub open spec fn parts_leaves_all(parts: Seq<PatternModel>, p: spec_fn(NoteKind) -> bool) -> bool
    decreases parts, 0int,
{
    parts.len() == 0 || (parts_leaves_all(parts.drop_last(), p) && leaves_all(parts.last(), p))
}

/// `p` holds of what every note of `notes` plays.
pub open spec fn kinds_all(notes: Seq<(int, NoteKind)>, p: spec_fn(NoteKind) -> bool) -> bool {
    forall|i: int| 0 <= i < notes.len() ==> p(#[trigger] notes[i].1)
}

/// Law: when `p` holds of every leaf of `m`, it holds of every note that
/// `m` plays, wherever it is placed.
pub proof fn lemma_assembled_kinds(m: PatternModel, origin: int, p: spec_fn(NoteKind) -> bool)
    requires
        leaves_all(m, p),
    ensures
        kinds_all(assembled(m, origin), p),
    decreases m, 1int,
{
    match m.body {
        BodyModel::Notes(kind) => {
            assert(assembled(m, origin) == seq![(origin + m.offset, kind)]);
            assert(leaves_all(m, p) == p(kind));
            assert forall|i: int| 0 <= i < assembled(m, origin).len() implies p(
                #[trigger] assembled(m, origin)[i].1,
            ) by {
                assert(assembled(m, origin)[i].1 == kind);
            }
        },
        BodyModel::Assemblage(parts) => {
            lemma_parts_kinds(parts, origin + m.offset, p);
        },
    }
}

proof fn lemma_parts_kinds(parts: Seq<PatternModel>, origin: int, p: spec_fn(NoteKind) -> bool)
    requires
        parts_leaves_all(parts, p),
    ensures
        kinds_all(assembled_parts(parts, origin), p),
    decreases parts, 0int,
{
    if parts.len() > 0 {
        let front = assembled_parts(parts.drop_last(), origin);
        let back = assembled(parts.last(), origin);
        lemma_parts_kinds(parts.drop_last(), origin, p);
        lemma_assembled_kinds(parts.last(), origin, p);
        assert forall|i: int| 0 <= i < (front + back).len() implies p(#[trigger] (front + back)[i].1) by {
            if i >= front.len() {
                assert((front + back)[i] == back[i - front.len()]);
            } else {
                assert((front + back)[i] == front[i]);
            }
        }
    }
}

/// Law: the notes of an assemblage placed at `origin` are the notes of its
/// parts in order, each part placed at `origin` plus the assemblage's
/// offset; an empty assemblage plays nothing.
pub proof fn lemma_assembly_of_parts(m: PatternModel, origin: int)
    requires
        m.body is Assemblage,
    ensures
        assembled(m, origin) == m.body->Assemblage_0.map_values(
            |part: PatternModel| assembled(part, origin + m.offset),
        ).flatten(),
{
    let parts = m.body->Assemblage_0;
    let f = |part: PatternModel| assembled(part, origin + m.offset);
    lemma_parts_flatten(parts, origin + m.offset);
    parts.map_values(f).lemma_flatten_and_flatten_alt_are_equivalent();
}

proof fn lemma_parts_flatten(parts: Seq<PatternModel>, origin: int)
    ensures
        assembled_parts(parts, origin) == parts.map_values(
            |part: PatternModel| assembled(part, origin),
        ).flatten_alt(),
    decreases parts.len(),
{
    let f = |part: PatternModel| assembled(part, origin);
    if parts.len() == 0 {
        assert(parts.map_values(f) =~= Seq::<Seq<(int, NoteKind)>>::empty());
    } else {
        lemma_parts_flatten(parts.drop_last(), origin);
        assert(parts.map_values(f).drop_last() =~= parts.drop_last().map_values(f));
    }
}

/// The start times and kinds of `notes`, in order.
pub open spec fn notes_model(notes: Seq<ScheduledNote>) -> Seq<(int, NoteKind)> {
    notes.map_values(|n: ScheduledNote| note_model(n))
}

pub(crate) proof fn lemma_models_index(ps: Seq<Pattern>)
    ensures
        models(ps).len() == ps.len(),
        forall|i: int| 0 <= i < ps.len() ==> #[trigger] models(ps)[i] == model(ps[i]),
    decreases ps.len(),
{
    if ps.len() > 0 {
        lemma_models_index(ps.drop_last());
    }
}

proof fn lemma_assembled_parts_push(parts: Seq<PatternModel>, m: PatternModel, origin: int)
    ensures
        assembled_parts(parts.push(m), origin) == assembled_parts(parts, origin) + assembled(
            m,
            origin,
        ),
{
    assert(parts.push(m).drop_last() =~= parts);
}

proof fn lemma_reach_bounds(m: PatternModel)
    requires
        m.offset >= 0,
    ensures
        reach(m) >= m.offset,
    decreases m,
{
    match m.body {
        BodyModel::Notes(_) => {},
        BodyModel::Assemblage(parts) => {
            lemma_reach_parts_nonneg(parts);
        },
    }
}

proof fn lemma_reach_parts_nonneg(parts: Seq<PatternModel>)
    ensures
        reach_parts(parts) >= 0,
    decreases parts.len(),
{
    if parts.len() > 0 {
        lemma_reach_parts_nonneg(parts.drop_last());
    }
}

proof fn lemma_reach_parts_covers(parts: Seq<PatternModel>, i: int)
    requires
        0 <= i < parts.len(),
    ensures
        reach(parts[i]) <= reach_parts(parts),
    decreases parts.len(),
{
    if i < parts.len() - 1 {
        lemma_reach_parts_covers(parts.drop_last(), i);
    }
}

impl Clone for Pattern {
    /// A copy of the pattern and of all patterns below it.
    fn clone(&self) -> (copy: Self)
        ensures
            model(copy) == model(*self),
        decreases self,
    {
        match &self.pattern_type {
            PatternType::Notes(kind) => Pattern {
                duration: self.duration,
                offset: self.offset,
                pattern_type: PatternType::Notes(*kind),
            },
            PatternType::Assemblage(parts) => {
                let mut copies: Vec<Pattern> = Vec::new();
                let mut i: usize = 0;
                proof {
                    lemma_models_index(parts@);
                }
                while i < parts.len()
                    invariant
                        i <= parts.len(),
                        self.pattern_type is Assemblage,
                        self.pattern_type->Assemblage_0 == *parts,
                        copies@.len() == i,
                        forall|j: int| 0 <= j < i ==> #[trigger] model(copies@[j]) == model(parts@[j]),
                    decreases parts.len() - i,
                {
                    proof {
                        assert(decreases_to!(*parts => parts[i as int]));
                        assert(decreases_to!(self.pattern_type => self.pattern_type->Assemblage_0));
                        assert(decreases_to!(*self => self.pattern_type));
                    }
                    let copy = parts[i].clone();
                    copies.push(copy);
                    i = i + 1;
                }
                proof {
                    lemma_models_index(copies@);
                    assert(models(copies@) =~= models(parts@));
                }
                Pattern {
                    duration: self.duration,
                    offset: self.offset,
                    pattern_type: PatternType::Assemblage(copies),
                }
            },
        }
    }
}

/// Appends to `notes` the notes of `pattern` placed in something that
/// starts at `origin`.
fn assemble_into(pattern: &Pattern, origin: u128, notes: &mut Vec<ScheduledNote>)
    requires
        origin + reach(model(*pattern)) <= u128::MAX,
    ensures
        notes_model(final(notes)@) == notes_model(old(notes)@) + assembled(model(*pattern), origin as int),
    decreases pattern,
{
    proof {
        lemma_reach_bounds(model(*pattern));
    }
    let base = origin + pattern.offset as u128;
    match &pattern.pattern_type {
        PatternType::Notes(kind) => {
            let ghost before = notes@;
            notes.push(ScheduledNote { start: base, kind: *kind });
            assert(notes_model(notes@) =~= notes_model(before) + assembled(
                model(*pattern),
                origin as int,
            ));
        },
        PatternType::Assemblage(parts) => {
            let ghost before = notes_model(notes@);
            let ghost part_models = models(parts@);
            proof {
                lemma_models_index(parts@);
                assert(before + assembled_parts(part_models.take(0), base as int) =~= before);
            }
            let mut i: usize = 0;
            while i < parts.len()
                invariant
                    i <= parts.len(),
                    pattern.pattern_type is Assemblage,
                    pattern.pattern_type->Assemblage_0 == *parts,
                    part_models == models(parts@),
                    part_models.len() == parts@.len(),
                    forall|j: int| 0 <= j < parts@.len() ==> #[trigger] part_models[j] == model(parts@[j]),
                    model(*pattern).body == BodyModel::Assemblage(part_models),
                    base as int + reach_parts(part_models) <= u128::MAX,
                    notes_model(notes@) == before + assembled_parts(part_models.take(i as int), base as int),
                decreases parts.len() - i,
            {
                proof {
                    lemma_reach_parts_covers(part_models, i as int);
                    assert(decreases_to!(*parts => parts[i as int]));
                    assert(decreases_to!(pattern.pattern_type => pattern.pattern_type->Assemblage_0));
                    assert(decreases_to!(*pattern => pattern.pattern_type));
                }
                assemble_into(&parts[i], base, notes);
                proof {
                    assert(part_models.take(i + 1) =~= part_models.take(i as int).push(part_models[i as int]));
                    lemma_assembled_parts_push(part_models.take(i as int), part_models[i as int], base as int);
                }
                i = i + 1;
            }
            proof {
                assert(part_models.take(parts@.len() as int) =~= part_models);
            }
        },
    }
}

/// The notes of `pattern` when it is placed at tick `offset`: each leaf in
/// order, starting at `offset` plus the offsets of the leaf and of every
/// pattern above it.
pub fn assemble_pattern(pattern: Pattern, offset: u128) -> (notes: Vec<ScheduledNote>)
    requires
        offset + reach(model(pattern)) <= u128::MAX,
    ensures
        notes_model(notes@) == assembled(model(pattern), offset as int),
{
    let mut notes: Vec<ScheduledNote> = Vec::new();
    assemble_into(&pattern, offset, &mut notes);
    assert(notes_model(Seq::<ScheduledNote>::empty()) =~= Seq::<(int, NoteKind)>::empty());
    assert(Seq::<(int, NoteKind)>::empty() + assembled(model(pattern), offset as int) =~= assembled(model(pattern), offset as int));
    notes
}

} // verus!

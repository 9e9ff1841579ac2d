//! Transcripts that name their speakers, from the answer of an outside speech recogniser.
//!
//! Times are of any type `T` that can be copied; how two of them compare is asked of the caller.
use crate::ids::{is_uuid_v4, new_uuid};
use crate::text::{
    is_core_at, is_trimmed, is_white_space, lemma_trim_takes_the_set_alone, lemma_trimmed,
    lemma_trimmed_text_between, lemma_trimmed_to_nothing, optional_text, trim, trimmed_text,
    TrimSet,
};
use vstd::prelude::*;

verus! {

/// The answer of a speech recogniser.
#[derive(Debug)]
pub struct ExternalAsrResponse<T> {
    pub segments: Vec<ExternalAsrSegment<T>>,
    pub language: Option<String>,
    pub duration: Option<T>,
}

/// A stretch of speech that a speech recogniser found.
#[derive(Debug)]
pub struct ExternalAsrSegment<T> {
    pub start: T,
    pub end: T,
    pub text: String,
    pub speaker_label: Option<String>,
}

/// A stretch of a transcript.
#[derive(Debug, Clone)]
pub struct TranscriptSegment<T> {
    pub id: String,
    pub text: String,
    pub timestamp: String,
    pub speaker_label: Option<String>,
    pub audio_start_time: Option<T>,
    pub audio_end_time: Option<T>,
    pub duration: Option<T>,
}

/// The label without the white space around it; none where nothing is left of it.
pub open spec fn bare_label(label: Option<Seq<char>>) -> Option<Seq<char>> {
    match label {
        Some(text) => if trimmed_text(text).len() > 0 {
            Some(trimmed_text(text))
        } else {
            None
        },
        None => None,
    }
}

impl<T> ExternalAsrSegment<T> {
    /// Whether the segment says anything.
    pub open spec fn is_spoken(self) -> bool {
        trimmed_text(self.text@).len() > 0
    }

    /// Whether the segment says anything.
    pub fn says_something(&self) -> (yes: bool)
        ensures
            yes == self.is_spoken(),
    {
        let text = trim(self.text.as_str());
        !text.as_str().is_empty()
    }
}

/// The segments that say something, in their order.
pub open spec fn spoken<T>(segments: Seq<ExternalAsrSegment<T>>) -> Seq<ExternalAsrSegment<T>>
    decreases segments.len(),
{
    if segments.len() == 0 {
        Seq::empty()
    } else if segments.last().is_spoken() {
        spoken(segments.drop_last()).push(segments.last())
    } else {
        spoken(segments.drop_last())
    }
}

impl<T> TranscriptSegment<T> {
    /// Whether this is what becomes of `segment` in a transcript of the given time, but for its
    /// identifier and for how long it lasts.
    pub open spec fn tells(self, segment: ExternalAsrSegment<T>, timestamp: Seq<char>) -> bool {
        &&& self.text@ == trimmed_text(segment.text@)
        &&& self.timestamp@ == timestamp
        &&& optional_text(self.speaker_label) == bare_label(optional_text(segment.speaker_label))
        &&& self.audio_start_time == Some(segment.start)
        &&& self.audio_end_time == Some(segment.end)
    }

    /// Whether the identifier is that of a transcript's segment, of the given UUID.
    pub open spec fn has_id(self, uuid: Seq<char>) -> bool {
        self.id@ == "transcript-"@ + uuid
    }
}

/// The label without the white space around it; none where nothing is left of it.
fn trim_label(label: &Option<String>) -> (bare: Option<String>)
    ensures
        optional_text(bare) == bare_label(optional_text(*label)),
{
    match label {
        Some(text) => {
            let bare = trim(text.as_str());
            if bare.as_str().is_empty() {
                None
            } else {
                Some(bare)
            }
        },
        None => None,
    }
}

/// What times can do: a zero, the difference of two of them, and the greater of two of them.
pub struct TimeRules<T, M, X> {
    pub zero: T,
    pub minus: M,
    pub max: X,
}

impl<T: Copy, M: Fn(T, T) -> T, X: Fn(T, T) -> T> TimeRules<T, M, X> {
    /// Whether the rules apply to a stretch from `start` to `end`.
    pub open spec fn apply_to(self, start: T, end: T) -> bool {
        &&& self.minus.requires((end, start))
        &&& forall|difference: T| #[trigger]
            self.minus.ensures((end, start), difference) ==> self.max.requires(
                (difference, self.zero),
            )
    }

    /// Whether a stretch from `start` to `end` lasts `duration`: the difference of the two, or zero
    /// where that is greater.
    pub open spec fn is_duration(self, start: T, end: T, duration: T) -> bool {
        exists|difference: T| #[trigger]
            self.minus.ensures((end, start), difference) && self.max.ensures(
                (difference, self.zero),
                duration,
            )
    }

    /// How long a stretch from `start` to `end` lasts.
    pub fn duration(&self, start: T, end: T) -> (duration: T)
        requires
            self.apply_to(start, end),
        ensures
            self.is_duration(start, end, duration),
    {
        let difference = (self.minus)(end, start);
        (self.max)(difference, self.zero)
    }
}

/// What becomes of a segment that says something, given the UUID of its identifier.
pub fn transcript_segment<T: Copy, M: Fn(T, T) -> T, X: Fn(T, T) -> T>(
    segment: &ExternalAsrSegment<T>,
    timestamp: &str,
    uuid: &str,
    rules: &TimeRules<T, M, X>,
) -> (part: TranscriptSegment<T>)
    requires
        segment.is_spoken(),
        rules.apply_to(segment.start, segment.end),
    ensures
        part.tells(*segment, timestamp@),
        part.has_id(uuid@),
        part.duration is Some,
        rules.is_duration(segment.start, segment.end, part.duration->0),
{
    let text = trim(segment.text.as_str());
    let mut id = "transcript-".to_owned();
    id.append(uuid);
    let duration = rules.duration(segment.start, segment.end);
    TranscriptSegment {
        id,
        text,
        timestamp: timestamp.to_owned(),
        speaker_label: trim_label(&segment.speaker_label),
        audio_start_time: Some(segment.start),
        audio_end_time: Some(segment.end),
        duration: Some(duration),
    }
}

/// The texts of some strings.
pub open spec fn string_texts(strings: Seq<String>) -> Seq<Seq<char>> {
    strings.map_values(|text: String| text@)
}

/// Whether `parts` is the transcript of `segments`: those that say something, in their order, the
/// first with an identifier made of the first of the UUIDs, the second of the second, and so on.
pub open spec fn is_transcript<T: Copy, M: Fn(T, T) -> T, X: Fn(T, T) -> T>(
    parts: Seq<TranscriptSegment<T>>,
    segments: Seq<ExternalAsrSegment<T>>,
    timestamp: Seq<char>,
    uuids: Seq<Seq<char>>,
    rules: TimeRules<T, M, X>,
) -> bool {
    &&& parts.len() == spoken(segments).len()
    &&& parts.len() <= uuids.len()
    &&& forall|i: int|
        0 <= i < parts.len() ==> {
            let part = #[trigger] parts[i];
            let segment = spoken(segments)[i];
            &&& part.tells(segment, timestamp)
            &&& part.has_id(uuids[i])
            &&& part.duration is Some
            &&& rules.is_duration(segment.start, segment.end, part.duration->0)
        }
}

/// The transcript of `segments`, as of the given time, given the UUIDs of its identifiers.
pub fn transcript_with_ids<T: Copy, M: Fn(T, T) -> T, X: Fn(T, T) -> T>(
    segments: &Vec<ExternalAsrSegment<T>>,
    timestamp: &str,
    uuids: &Vec<String>,
    rules: &TimeRules<T, M, X>,
) -> (parts: Vec<TranscriptSegment<T>>)
    requires
        spoken(segments@).len() <= uuids@.len(),
        forall|i: int|
            0 <= i < segments@.len() && (#[trigger] segments@[i]).is_spoken() ==> rules.apply_to(
                segments@[i].start,
                segments@[i].end,
            ),
    ensures
        is_transcript(parts@, segments@, timestamp@, string_texts(uuids@), *rules),
{
    let mut parts: Vec<TranscriptSegment<T>> = Vec::new();
    assert(segments@.take(0) == Seq::<ExternalAsrSegment<T>>::empty());
    for n in 0..segments.len()
        invariant
            spoken(segments@).len() <= uuids@.len(),
            forall|i: int|
                0 <= i < segments@.len() && (#[trigger] segments@[i]).is_spoken()
                    ==> rules.apply_to(segments@[i].start, segments@[i].end),
            is_transcript(
                parts@,
                segments@.take(n as int),
                timestamp@,
                string_texts(uuids@),
                *rules,
            ),
    {
        let segment = &segments[n];
        proof {
            assert(segments@.take(n + 1).drop_last() == segments@.take(n as int));
            assert(segments@.take(n + 1).last() == *segment);
            lemma_spoken_of_both(segments@.take(n + 1), segments@.skip(n + 1));
            assert(segments@.take(n + 1) + segments@.skip(n + 1) == segments@);
        }
        if segment.says_something() {
            let uuid = &uuids[parts.len()];
            assert(string_texts(uuids@)[parts@.len() as int] == uuid@);
            let part = transcript_segment(segment, timestamp, uuid.as_str(), rules);
            parts.push(part);
        }
    }
    assert(segments@.take(segments@.len() as int) == segments@);
    parts
}

/// The transcript of an answer, as of the given time. Its identifiers are made of random UUIDs; that
/// no two of these are the same rests on chance and is left unsaid.
pub fn transcript_segments_from_external_asr<T: Copy, M: Fn(T, T) -> T, X: Fn(T, T) -> T>(
    response: ExternalAsrResponse<T>,
    timestamp: String,
    rules: &TimeRules<T, M, X>,
) -> (parts: Vec<TranscriptSegment<T>>)
    requires
        forall|i: int|
            0 <= i < response.segments@.len() && (#[trigger] response.segments@[i]).is_spoken()
                ==> rules.apply_to(response.segments@[i].start, response.segments@[i].end),
    ensures
        exists|uuids: Seq<Seq<char>>|
            {
                &&& uuids.len() == spoken(response.segments@).len()
                &&& forall|i: int| 0 <= i < uuids.len() ==> is_uuid_v4(#[trigger] uuids[i])
                &&& #[trigger] is_transcript(
                    parts@,
                    response.segments@,
                    timestamp@,
                    uuids,
                    *rules,
                )
            },
{
    let segments = &response.segments;
    let mut uuids: Vec<String> = Vec::new();
    assert(segments@.take(0) == Seq::<ExternalAsrSegment<T>>::empty());
    for n in 0..segments.len()
        invariant
            uuids@.len() == spoken(segments@.take(n as int)).len(),
            forall|i: int| 0 <= i < uuids@.len() ==> is_uuid_v4(#[trigger] uuids@[i]@),
    {
        let segment = &segments[n];
        proof {
            assert(segments@.take(n + 1).drop_last() == segments@.take(n as int));
            assert(segments@.take(n + 1).last() == *segment);
        }
        if segment.says_something() {
            uuids.push(new_uuid());
        }
    }
    assert(segments@.take(segments@.len() as int) == segments@);
    proof {
        let drawn = string_texts(uuids@);
        assert forall|i: int| 0 <= i < drawn.len() implies is_uuid_v4(#[trigger] drawn[i]) by {
            assert(drawn[i] == uuids@[i]@);
        }
    }
    transcript_with_ids(segments, timestamp.as_str(), &uuids, rules)
}

// ---------------------------------------------------------------------------------------------
// Laws.
// ---------------------------------------------------------------------------------------------

/// A transcript holds every segment that says something, and no other.
pub proof fn lemma_spoken_are_all<T>(segments: Seq<ExternalAsrSegment<T>>)
    ensures
        spoken(segments).len() <= segments.len(),
        forall|segment: ExternalAsrSegment<T>| #[trigger]
            spoken(segments).contains(segment) <==> segments.contains(segment)
                && segment.is_spoken(),
    decreases segments.len(),
{
    if segments.len() > 0 {
        let before = segments.drop_last();
        let last = segments.last();
        lemma_spoken_are_all(before);
        assert forall|segment: ExternalAsrSegment<T>| #[trigger]
            spoken(segments).contains(segment) implies segments.contains(segment)
            && segment.is_spoken() by {
            let i = choose|i: int| 0 <= i < spoken(segments).len() && spoken(segments)[i] == segment;
            if i < spoken(before).len() {
                assert(spoken(before)[i] == segment);
                assert(spoken(before).contains(segment));
                let j = choose|j: int| 0 <= j < before.len() && before[j] == segment;
                assert(segments[j] == segment);
            } else {
                assert(segments[segments.len() - 1] == segment);
            }
        }
        assert forall|segment: ExternalAsrSegment<T>|
            segments.contains(segment) && segment.is_spoken() implies #[trigger] spoken(
            segments,
        ).contains(segment) by {
            let j = choose|j: int| 0 <= j < segments.len() && segments[j] == segment;
            if j < before.len() {
                assert(before[j] == segment);
                assert(spoken(before).contains(segment));
                let i = choose|i: int| 0 <= i < spoken(before).len() && spoken(before)[i] == segment;
                assert(spoken(segments)[i] == segment);
            } else {
                assert(spoken(segments)[spoken(segments).len() - 1] == segment);
            }
        }
    }
}

/// Of two runs of segments, the second behind the first, those that say something are those of the
/// first and then those of the second.
pub proof fn lemma_spoken_of_both<T>(
    first: Seq<ExternalAsrSegment<T>>,
    second: Seq<ExternalAsrSegment<T>>,
)
    ensures
        spoken(first + second) == spoken(first) + spoken(second),
    decreases second.len(),
{
    if second.len() == 0 {
        assert(first + second == first);
        assert(spoken(first) + spoken(second) == spoken(first));
    } else {
        lemma_spoken_of_both(first, second.drop_last());
        assert((first + second).drop_last() == first + second.drop_last());
        assert((first + second).last() == second.last());
    }
}

/// In a transcript no text is empty or has white space at an end, and no more is any label.
pub proof fn lemma_transcript_is_bare<T>(
    part: TranscriptSegment<T>,
    segment: ExternalAsrSegment<T>,
    timestamp: Seq<char>,
)
    requires
        segment.is_spoken(),
        part.tells(segment, timestamp),
    ensures
        part.text@.len() > 0,
        is_trimmed(TrimSet::WhiteSpace, part.text@),
        optional_text(part.speaker_label) matches Some(label) ==> label.len() > 0 && is_trimmed(
            TrimSet::WhiteSpace,
            label,
        ),
{
    lemma_trimmed(TrimSet::WhiteSpace, segment.text@);
    if let Some(text) = optional_text(segment.speaker_label) {
        lemma_trimmed(TrimSet::WhiteSpace, text);
    }
}

/// No segment lasts less than zero, where the greater of two times is no less than the second of
/// them.
pub proof fn lemma_duration_not_below_zero<T: Copy, M: Fn(T, T) -> T, X: Fn(T, T) -> T>(
    rules: TimeRules<T, M, X>,
    start: T,
    end: T,
    duration: T,
    at_most: spec_fn(T, T) -> bool,
)
    requires
        forall|a: T, b: T, greater: T| #[trigger]
            rules.max.ensures((a, b), greater) ==> at_most(b, greater),
        rules.is_duration(start, end, duration),
    ensures
        at_most(rules.zero, duration),
{
}

impl<T> TranscriptSegment<T> {
    /// Whether the two say the same of the same stretch, whatever their identifiers and however long
    /// they make it last.
    pub open spec fn same_stretch(self, other: TranscriptSegment<T>) -> bool {
        &&& self.text@ == other.text@
        &&& self.timestamp@ == other.timestamp@
        &&& optional_text(self.speaker_label) == optional_text(other.speaker_label)
        &&& self.audio_start_time == other.audio_start_time
        &&& self.audio_end_time == other.audio_end_time
    }

    /// Whether the two are the same but for their identifiers.
    pub open spec fn same_but_id(self, other: TranscriptSegment<T>) -> bool {
        self.same_stretch(other) && self.duration == other.duration
    }
}

impl<T: Copy, M: Fn(T, T) -> T, X: Fn(T, T) -> T> TimeRules<T, M, X> {
    /// Whether difference and greater have one result for each two times.
    pub open spec fn are_functions(self) -> bool {
        &&& forall|a: T, b: T, x: T, y: T|
            #![trigger self.minus.ensures((a, b), x), self.minus.ensures((a, b), y)]
            self.minus.ensures((a, b), x) && self.minus.ensures((a, b), y) ==> x == y
        &&& forall|a: T, b: T, x: T, y: T|
            #![trigger self.max.ensures((a, b), x), self.max.ensures((a, b), y)]
            self.max.ensures((a, b), x) && self.max.ensures((a, b), y) ==> x == y
    }
}

/// A transcript of one run of segments and then one of another are a transcript of the two runs.
pub proof fn lemma_transcripts_join<T: Copy, M: Fn(T, T) -> T, X: Fn(T, T) -> T>(
    first: Seq<ExternalAsrSegment<T>>,
    second: Seq<ExternalAsrSegment<T>>,
    timestamp: Seq<char>,
    rules: TimeRules<T, M, X>,
    parts1: Seq<TranscriptSegment<T>>,
    uuids1: Seq<Seq<char>>,
    parts2: Seq<TranscriptSegment<T>>,
    uuids2: Seq<Seq<char>>,
)
    requires
        is_transcript(parts1, first, timestamp, uuids1, rules),
        is_transcript(parts2, second, timestamp, uuids2, rules),
    ensures
        is_transcript(
            parts1 + parts2,
            first + second,
            timestamp,
            uuids1.take(parts1.len() as int) + uuids2,
            rules,
        ),
{
    lemma_spoken_of_both(first, second);
    let both = parts1 + parts2;
    let n = parts1.len() as int;
    let uuids = uuids1.take(n) + uuids2;
    assert forall|i: int| 0 <= i < both.len() implies {
        let part = #[trigger] both[i];
        let segment = spoken(first + second)[i];
        &&& part.tells(segment, timestamp)
        &&& part.has_id(uuids[i])
        &&& part.duration is Some
        &&& rules.is_duration(segment.start, segment.end, part.duration->0)
    } by {
        if i < n {
            assert(both[i] == parts1[i]);
        } else {
            assert(both[i] == parts2[i - n]);
        }
    }
}

/// A transcript of two runs of segments is one of the first and then one of the second.
pub proof fn lemma_transcript_splits<T: Copy, M: Fn(T, T) -> T, X: Fn(T, T) -> T>(
    first: Seq<ExternalAsrSegment<T>>,
    second: Seq<ExternalAsrSegment<T>>,
    timestamp: Seq<char>,
    rules: TimeRules<T, M, X>,
    both: Seq<TranscriptSegment<T>>,
    uuids: Seq<Seq<char>>,
)
    requires
        is_transcript(both, first + second, timestamp, uuids, rules),
    ensures
        ({
            let n = spoken(first).len() as int;
            &&& 0 <= n <= both.len() <= uuids.len()
            &&& is_transcript(both.take(n), first, timestamp, uuids.take(n), rules)
            &&& is_transcript(both.skip(n), second, timestamp, uuids.skip(n), rules)
        }),
{
    lemma_spoken_of_both(first, second);
    let n = spoken(first).len() as int;
    assert forall|i: int| 0 <= i < n implies {
        let part = #[trigger] both.take(n)[i];
        let segment = spoken(first)[i];
        &&& part.tells(segment, timestamp)
        &&& part.has_id(uuids.take(n)[i])
        &&& part.duration is Some
        &&& rules.is_duration(segment.start, segment.end, part.duration->0)
    } by {
        assert(both.take(n)[i] == both[i]);
    }
    assert forall|i: int| 0 <= i < both.len() - n implies {
        let part = #[trigger] both.skip(n)[i];
        let segment = spoken(second)[i];
        &&& part.tells(segment, timestamp)
        &&& part.has_id(uuids.skip(n)[i])
        &&& part.duration is Some
        &&& rules.is_duration(segment.start, segment.end, part.duration->0)
    } by {
        assert(both.skip(n)[i] == both[i + n]);
    }
}

/// The transcript of two answers in one is that of the first and then that of the second, in
/// everything but the identifiers, whatever else the answers hold. The durations are the same where
/// the time rules have one result for each two times.
pub proof fn lemma_transcript_of_both<T: Copy, M: Fn(T, T) -> T, X: Fn(T, T) -> T>(
    first: ExternalAsrResponse<T>,
    second: ExternalAsrResponse<T>,
    whole: ExternalAsrResponse<T>,
    timestamp: Seq<char>,
    rules: TimeRules<T, M, X>,
    parts1: Seq<TranscriptSegment<T>>,
    uuids1: Seq<Seq<char>>,
    parts2: Seq<TranscriptSegment<T>>,
    uuids2: Seq<Seq<char>>,
    both: Seq<TranscriptSegment<T>>,
    uuids: Seq<Seq<char>>,
)
    requires
        whole.segments@ == first.segments@ + second.segments@,
        is_transcript(parts1, first.segments@, timestamp, uuids1, rules),
        is_transcript(parts2, second.segments@, timestamp, uuids2, rules),
        is_transcript(both, whole.segments@, timestamp, uuids, rules),
    ensures
        both.len() == parts1.len() + parts2.len(),
        forall|i: int|
            0 <= i < both.len() ==> (#[trigger] both[i]).same_stretch((parts1 + parts2)[i]),
        rules.are_functions() ==> forall|i: int|
            0 <= i < both.len() ==> (#[trigger] both[i]).same_but_id((parts1 + parts2)[i]),
{
    let joined = uuids1.take(parts1.len() as int) + uuids2;
    lemma_transcripts_join(
        first.segments@,
        second.segments@,
        timestamp,
        rules,
        parts1,
        uuids1,
        parts2,
        uuids2,
    );
    lemma_transcripts_agree(parts1 + parts2, joined, both, uuids, whole.segments@, timestamp, rules);
}

/// Two transcripts of the same segments are the same in everything but the identifiers; the
/// durations, where the time rules have one result for each two times.
pub proof fn lemma_transcripts_agree<T: Copy, M: Fn(T, T) -> T, X: Fn(T, T) -> T>(
    parts1: Seq<TranscriptSegment<T>>,
    uuids1: Seq<Seq<char>>,
    parts2: Seq<TranscriptSegment<T>>,
    uuids2: Seq<Seq<char>>,
    segments: Seq<ExternalAsrSegment<T>>,
    timestamp: Seq<char>,
    rules: TimeRules<T, M, X>,
)
    requires
        is_transcript(parts1, segments, timestamp, uuids1, rules),
        is_transcript(parts2, segments, timestamp, uuids2, rules),
    ensures
        parts1.len() == parts2.len(),
        forall|i: int| 0 <= i < parts2.len() ==> (#[trigger] parts2[i]).same_stretch(parts1[i]),
        rules.are_functions() ==> forall|i: int|
            0 <= i < parts2.len() ==> (#[trigger] parts2[i]).same_but_id(parts1[i]),
{
    assert forall|i: int| 0 <= i < parts2.len() implies (#[trigger] parts2[i]).same_stretch(
        parts1[i],
    ) && (rules.are_functions() ==> parts2[i].same_but_id(parts1[i])) by {
        let segment = spoken(segments)[i];
        assert(rules.is_duration(segment.start, segment.end, parts1[i].duration->0));
        assert(rules.is_duration(segment.start, segment.end, parts2[i].duration->0));
    }
}

/// The transcript of an answer without segments is empty, whatever else the answer holds.
pub proof fn lemma_transcript_of_nothing<T: Copy, M: Fn(T, T) -> T, X: Fn(T, T) -> T>(
    response: ExternalAsrResponse<T>,
    parts: Seq<TranscriptSegment<T>>,
    timestamp: Seq<char>,
    uuids: Seq<Seq<char>>,
    rules: TimeRules<T, M, X>,
)
    requires
        response.segments@.len() == 0,
        is_transcript(parts, response.segments@, timestamp, uuids, rules),
    ensures
        parts == Seq::<TranscriptSegment<T>>::empty(),
{
}

/// The identifiers in a transcript differ exactly where the UUIDs do that they are made of, and have
/// 47 characters where those are random UUIDs.
pub proof fn lemma_ids_differ_as_uuids_do<T: Copy, M: Fn(T, T) -> T, X: Fn(T, T) -> T>(
    parts: Seq<TranscriptSegment<T>>,
    segments: Seq<ExternalAsrSegment<T>>,
    timestamp: Seq<char>,
    uuids: Seq<Seq<char>>,
    rules: TimeRules<T, M, X>,
    i: int,
    j: int,
)
    requires
        is_transcript(parts, segments, timestamp, uuids, rules),
        0 <= i < parts.len(),
        0 <= j < parts.len(),
    ensures
        parts[i].id@ == parts[j].id@ <==> uuids[i] == uuids[j],
        is_uuid_v4(uuids[i]) ==> parts[i].id@.len() == 47,
{
    reveal_strlit("transcript-");
    let n = "transcript-"@.len() as int;
    assert(parts[i].has_id(uuids[i]) && parts[j].has_id(uuids[j]));
    assert(parts[i].id@.skip(n) == uuids[i]);
    assert(parts[j].id@.skip(n) == uuids[j]);
}

/// Whether some character of `s` is not white space.
pub open spec fn has_words(s: Seq<char>) -> bool {
    exists|i: int| 0 <= i < s.len() && !is_white_space(#[trigger] s[i])
}

/// Whether `part` is what is left of `s` when the white space at its two ends is taken off, and
/// nothing else.
pub open spec fn is_bare_of(part: Seq<char>, s: Seq<char>) -> bool {
    exists|a: int, b: int| #[trigger]
        is_core_at(TrimSet::WhiteSpace, s, a, b) && part == s.subrange(a, b)
}

proof fn lemma_bare(s: Seq<char>)
    ensures
        is_bare_of(trimmed_text(s), s),
        trimmed_text(s).len() > 0 <==> has_words(s),
{
    let set = TrimSet::WhiteSpace;
    lemma_trim_takes_the_set_alone(set, s);
    lemma_trimmed_to_nothing(set, s);
    if has_words(s) {
        let i = choose|i: int| 0 <= i < s.len() && !is_white_space(#[trigger] s[i]);
        assert(!set.holds(s[i]));
    }
    if trimmed_text(s).len() > 0 {
        let i = choose|i: int| 0 <= i < s.len() && !set.holds(#[trigger] s[i]);
        assert(!is_white_space(s[i]));
    }
}

/// A segment says something exactly where its text holds a character that is not white space, however
/// long it is; and by itself it is then its whole transcript.
pub proof fn lemma_spoken_is<T>(segment: ExternalAsrSegment<T>)
    ensures
        segment.is_spoken() <==> has_words(segment.text@),
        has_words(segment.text@) ==> spoken(seq![segment]) == seq![segment],
        !has_words(segment.text@) ==> spoken(seq![segment]) == Seq::<ExternalAsrSegment<T>>::empty(),
{
    lemma_bare(segment.text@);
    let none = Seq::<ExternalAsrSegment<T>>::empty();
    assert(seq![segment].drop_last() == none);
    assert(spoken(none) == none);
    assert(none.push(segment) == seq![segment]);
}

/// A segment is kept exactly where it is there and its text holds a character that is not white
/// space.
pub proof fn lemma_kept_segments_have_words<T>(
    segments: Seq<ExternalAsrSegment<T>>,
    segment: ExternalAsrSegment<T>,
)
    ensures
        spoken(segments).contains(segment) <==> segments.contains(segment) && exists|i: int|
            0 <= i < segment.text@.len() && !is_white_space(#[trigger] segment.text@[i]),
{
    lemma_spoken_are_all(segments);
    lemma_spoken_is(segment);
}

/// One more segment adds itself at the end, where its text holds a character that is not white space,
/// and otherwise nothing; none is lost or moved.
pub proof fn lemma_spoken_of_one_more<T>(
    segments: Seq<ExternalAsrSegment<T>>,
    segment: ExternalAsrSegment<T>,
)
    ensures
        has_words(segment.text@) ==> spoken(segments.push(segment)) == spoken(segments).push(segment),
        !has_words(segment.text@) ==> spoken(segments.push(segment)) == spoken(segments),
{
    lemma_spoken_is(segment);
    assert(segments.push(segment).drop_last() == segments);
}

/// A label is kept where it holds a character that is not white space, without the white space around
/// it.
pub proof fn lemma_label_is(text: Seq<char>)
    ensures
        bare_label(None) is None,
        bare_label(Some(text)) is Some <==> has_words(text),
        bare_label(Some(text)) matches Some(label) ==> is_bare_of(label, text),
{
    lemma_bare(text);
}

/// What becomes of a segment: its text and its label without the white space around them, the given
/// time, and its own start and end.
pub proof fn lemma_part_is<T>(
    part: TranscriptSegment<T>,
    segment: ExternalAsrSegment<T>,
    timestamp: Seq<char>,
    uuid: Seq<char>,
)
    requires
        part.tells(segment, timestamp),
    ensures
        is_bare_of(part.text@, segment.text@),
        part.timestamp@ == timestamp,
        part.audio_start_time == Some(segment.start),
        part.audio_end_time == Some(segment.end),
        segment.speaker_label is None ==> part.speaker_label is None,
        segment.speaker_label matches Some(label) ==> {
            &&& part.speaker_label is Some <==> has_words(label@)
            &&& part.speaker_label matches Some(bare) ==> is_bare_of(bare@, label@)
        },
        part.has_id(uuid) <==> part.id@ == "transcript-"@ + uuid,
{
    lemma_bare(segment.text@);
    if let Some(label) = segment.speaker_label {
        lemma_label_is(label@);
    }
}

/// Each part of a transcript is what becomes of the segment in its place among those that say
/// something, under the UUID in its place, and lasts as long as that segment does.
pub proof fn lemma_transcript_is<T: Copy, M: Fn(T, T) -> T, X: Fn(T, T) -> T>(
    parts: Seq<TranscriptSegment<T>>,
    segments: Seq<ExternalAsrSegment<T>>,
    timestamp: Seq<char>,
    uuids: Seq<Seq<char>>,
    rules: TimeRules<T, M, X>,
    i: int,
)
    requires
        is_transcript(parts, segments, timestamp, uuids, rules),
    ensures
        parts.len() == spoken(segments).len(),
        0 <= i < parts.len() ==> {
            let segment = spoken(segments)[i];
            &&& parts[i].id@ == "transcript-"@ + uuids[i]
            &&& is_bare_of(parts[i].text@, segment.text@)
            &&& parts[i].timestamp@ == timestamp
            &&& parts[i].audio_start_time == Some(segment.start)
            &&& parts[i].audio_end_time == Some(segment.end)
            &&& segment.speaker_label is None ==> parts[i].speaker_label is None
            &&& segment.speaker_label matches Some(label) ==> {
                &&& parts[i].speaker_label is Some <==> has_words(label@)
                &&& parts[i].speaker_label matches Some(bare) ==> is_bare_of(bare@, label@)
            }
            &&& parts[i].duration is Some
            &&& rules.is_duration(segment.start, segment.end, parts[i].duration->0)
        },
{
    if 0 <= i < parts.len() {
        let segment = spoken(segments)[i];
        assert(parts[i].tells(segment, timestamp));
        lemma_part_is(parts[i], segment, timestamp, uuids[i]);
    }
}

/// A stretch lasts the greater of zero and what lies between its start and its end.
pub proof fn lemma_duration_is<T: Copy, M: Fn(T, T) -> T, X: Fn(T, T) -> T>(
    rules: TimeRules<T, M, X>,
    start: T,
    end: T,
    duration: T,
    difference: spec_fn(T, T) -> T,
    greater: spec_fn(T, T) -> T,
)
    requires
        forall|a: T, b: T, x: T| #[trigger] rules.minus.ensures((a, b), x) ==> x == difference(a, b),
        forall|a: T, b: T, x: T| #[trigger] rules.max.ensures((a, b), x) ==> x == greater(a, b),
        rules.is_duration(start, end, duration),
    ensures
        duration == greater(difference(end, start), rules.zero),
{
}

/// Strings stand for their own texts.
pub proof fn lemma_string_texts_are(strings: Seq<String>)
    ensures
        string_texts(strings).len() == strings.len(),
        forall|i: int| 0 <= i < strings.len() ==> #[trigger] string_texts(strings)[i] == strings[i]@,
{
}

/// What a segment says stands in the transcript whole, however long it is, without the white space
/// around it; and so does its label.
pub proof fn lemma_speech_is_kept_whole<T>(
    part: TranscriptSegment<T>,
    segment: ExternalAsrSegment<T>,
    timestamp: Seq<char>,
    before: Seq<char>,
    core: Seq<char>,
    after: Seq<char>,
)
    requires
        part.tells(segment, timestamp),
        core.len() > 0,
        !is_white_space(core[0]) && !is_white_space(core[core.len() - 1]),
        forall|i: int| 0 <= i < before.len() ==> is_white_space(#[trigger] before[i]),
        forall|i: int| 0 <= i < after.len() ==> is_white_space(#[trigger] after[i]),
    ensures
        segment.text@ == before + core + after ==> segment.is_spoken() && part.text@ == core,
        (segment.speaker_label matches Some(label) && label@ == before + core + after) ==> (
        part.speaker_label matches Some(bare) && bare@ == core),
{
    lemma_trimmed_text_between(before, core, after);
}

} // verus!

use meetily_audio::diarization::{
    transcript_segment, transcript_segments_from_external_asr, transcript_with_ids,
    ExternalAsrResponse, ExternalAsrSegment, TimeRules, TranscriptSegment,
};

fn minus(a: f64, b: f64) -> f64 {
    a - b
}

fn transcript(
    response: ExternalAsrResponse<f64>,
    timestamp: String,
) -> Vec<TranscriptSegment<f64>> {
    let rules = TimeRules { zero: 0.0, minus, max: f64::max };
    transcript_segments_from_external_asr(response, timestamp, &rules)
}

fn segment_of(value: &serde_json::Value) -> ExternalAsrSegment<f64> {
    let speaker = match value.get("speaker_label") {
        Some(label) => Some(label),
        None => value.get("speaker"),
    };
    ExternalAsrSegment {
        start: value["start"].as_f64().unwrap(),
        end: value["end"].as_f64().unwrap(),
        text: value["text"].as_str().unwrap().to_string(),
        speaker_label: speaker.and_then(|label| label.as_str()).map(|label| label.to_string()),
    }
}

#[test]
fn parses_speakr_style_speaker_segments() {
    let payload = r#"{
            "segments": [
                {"start": 0.0, "end": 1.2, "text": " Thank you. ", "speaker": "SPEAKER_00"},
                {"start": 1.2, "end": 2.5, "text": "Yes, agreed.", "speaker": "SPEAKER_01"}
            ],
            "language": "en",
            "duration": 2.5
        }"#;

    let value: serde_json::Value = serde_json::from_str(payload).unwrap();
    let response = ExternalAsrResponse {
        segments: value["segments"].as_array().unwrap().iter().map(segment_of).collect(),
        language: value["language"].as_str().map(|language| language.to_string()),
        duration: value["duration"].as_f64(),
    };
    let segments = transcript(response, "2026-07-07T12:00:00Z".to_string());

    assert_eq!(segments.len(), 2);
    assert_eq!(segments[0].text, "Thank you.");
    assert_eq!(segments[0].speaker_label.as_deref(), Some("SPEAKER_00"));
    assert_eq!(segments[0].audio_start_time, Some(0.0));
    assert_eq!(segments[0].audio_end_time, Some(1.2));
}

#[test]
fn skips_blank_segments_and_clamps_negative_duration() {
    let response = ExternalAsrResponse {
        segments: vec![
            ExternalAsrSegment {
                start: 3.0,
                end: 2.0,
                text: "Kept".to_string(),
                speaker_label: Some(" ".to_string()),
            },
            ExternalAsrSegment {
                start: 4.0,
                end: 5.0,
                text: " ".to_string(),
                speaker_label: Some("SPEAKER_00".to_string()),
            },
        ],
        language: None,
        duration: None,
    };

    let segments = transcript(response, "now".to_string());

    assert_eq!(segments.len(), 1);
    assert_eq!(segments[0].speaker_label, None);
    assert_eq!(segments[0].duration, Some(0.0));
}

fn spoken(start: f64, end: f64, text: &str, label: Option<&str>) -> ExternalAsrSegment<f64> {
    ExternalAsrSegment {
        start,
        end,
        text: text.to_string(),
        speaker_label: label.map(|label| label.to_string()),
    }
}

#[test]
fn segments_keep_their_order_and_times() {
    let response = ExternalAsrResponse {
        segments: vec![
            spoken(1.0, 3.5, "\u{3000}one\n", Some("\tA ")),
            spoken(3.5, 4.0, "\u{2003}", None),
            spoken(4.0, 4.0, "two", None),
            spoken(4.0, 6.0, "three", Some("")),
        ],
        language: None,
        duration: Some(6.0),
    };
    let parts = transcript(response, "now".to_string());
    let texts: Vec<&str> = parts.iter().map(|part| part.text.as_str()).collect();
    assert_eq!(texts, vec!["one", "two", "three"]);
    let labels: Vec<Option<&str>> =
        parts.iter().map(|part| part.speaker_label.as_deref()).collect();
    assert_eq!(labels, vec![Some("A"), None, None]);
    let durations: Vec<Option<f64>> = parts.iter().map(|part| part.duration).collect();
    assert_eq!(durations, vec![Some(2.5), Some(0.0), Some(2.0)]);
    assert_eq!(parts[2].audio_start_time, Some(4.0));
    assert_eq!(parts[2].audio_end_time, Some(6.0));
    assert!(parts.iter().all(|part| part.timestamp == "now"));
}

#[test]
fn identifiers_are_made_of_uuids() {
    let response = ExternalAsrResponse {
        segments: vec![spoken(0.0, 1.0, "a", None), spoken(1.0, 2.0, "a", None)],
        language: None,
        duration: None,
    };
    let parts = transcript(response, "now".to_string());
    for part in &parts {
        let id = part.id.strip_prefix("transcript-").unwrap();
        assert_eq!(uuid::Uuid::parse_str(id).unwrap().get_version_num(), 4);
        assert_eq!(part.id.len(), 47);
    }
    assert_ne!(parts[0].id, parts[1].id);
}

#[test]
fn identifiers_follow_the_uuids_that_are_given() {
    let rules = TimeRules { zero: 0.0, minus, max: f64::max };
    let segments = vec![
        spoken(0.0, 1.0, "a", None),
        spoken(1.0, 2.0, " ", None),
        spoken(2.0, 3.0, "b", Some("B")),
        spoken(3.0, 4.0, "c", None),
    ];
    let uuids: Vec<String> =
        ["u", "v", "u", "w"].iter().map(|uuid| uuid.to_string()).collect();
    let parts = transcript_with_ids(&segments, "now", &uuids, &rules);
    let told: Vec<(&str, &str)> =
        parts.iter().map(|part| (part.id.as_str(), part.text.as_str())).collect();
    assert_eq!(
        told,
        vec![("transcript-u", "a"), ("transcript-v", "b"), ("transcript-u", "c")]
    );
}

#[test]
fn a_segment_is_told_exactly() {
    let rules = TimeRules {
        zero: 0i64,
        minus: |a: i64, b: i64| a - b,
        max: |a: i64, b: i64| a.max(b),
    };
    let segment = ExternalAsrSegment {
        start: 2,
        end: 7,
        text: " hi ".to_string(),
        speaker_label: Some(" B".to_string()),
    };
    assert!(segment.says_something());
    let part = transcript_segment(&segment, "t", "u", &rules);
    assert_eq!(part.id, "transcript-u");
    assert_eq!(part.text, "hi");
    assert_eq!(part.timestamp, "t");
    assert_eq!(part.speaker_label.as_deref(), Some("B"));
    assert_eq!(part.duration, Some(5));
    assert_eq!(rules.duration(7, 2), 0);
}

#[test]
fn the_transcript_of_nothing_is_empty() {
    let response = ExternalAsrResponse { segments: vec![], language: None, duration: None };
    assert!(transcript(response, "now".to_string()).is_empty());
    let response = ExternalAsrResponse {
        segments: vec![],
        language: Some("en".to_string()),
        duration: Some(1.0),
    };
    assert!(transcript(response, "now".to_string()).is_empty());
}

#[test]
fn transcripts_follow_one_another() {
    let first = || vec![spoken(0.0, 1.0, " a", None), spoken(1.0, 2.0, "", None)];
    let second = || vec![spoken(2.0, 1.0, "b ", Some("B")), spoken(3.0, 4.0, "c", None)];
    let tell = |segments: Vec<ExternalAsrSegment<f64>>| -> Vec<TranscriptSegment<f64>> {
        let language = Some(format!("{}", segments.len()));
        let duration = Some(segments.len() as f64);
        let response = ExternalAsrResponse { segments, language, duration };
        transcript(response, "now".to_string())
    };
    let mut both = first();
    both.extend(second());
    let mut told = tell(first());
    told.extend(tell(second()));
    let parts = tell(both);
    assert_eq!(parts.len(), told.len());
    for (part, other) in parts.iter().zip(&told) {
        assert_eq!(part.text, other.text);
        assert_eq!(part.timestamp, other.timestamp);
        assert_eq!(part.speaker_label, other.speaker_label);
        assert_eq!(part.audio_start_time, other.audio_start_time);
        assert_eq!(part.audio_end_time, other.audio_end_time);
        assert_eq!(part.duration, other.duration);
        assert!(!part.text.is_empty() && part.duration.unwrap() >= 0.0);
    }
}

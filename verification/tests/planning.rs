use rrtimelapse::commands::{
    plan_sidecar_write, ramp_param_names, rating_of, require_keyframes, suggested_keyframes,
    WriteResult, DEFAULT_RATING_THRESHOLD, THUMB_MAX_DIM,
};
use rrtimelapse::interpolate::{
    adjustments_of, frame_by_index, plan_frame, plan_sequence, ramp_source, shift_exposure, PlannedFrame,
    RampSource,
};
use rrtimelapse::json::{JsonMap, JsonValue};
use rrtimelapse::rrdata::{default_doc, RrDoc};
use rrtimelapse::sequence::Frame;
use std::collections::BTreeSet;

fn num(x: f64) -> JsonValue<f64> {
    JsonValue::Number(x)
}

fn map(pairs: Vec<(&str, JsonValue<f64>)>) -> JsonMap<f64> {
    let mut m = JsonMap::new();
    for (k, v) in pairs {
        m.insert(k.to_string(), v);
    }
    m
}

fn doc(rating: i64, adjustments: Option<JsonMap<f64>>) -> RrDoc<f64> {
    RrDoc { version: 1, rating, adjustments, tags: JsonValue::Null, extra: JsonMap::new() }
}

fn frame(index: usize, d: Option<RrDoc<f64>>) -> Frame<f64> {
    Frame {
        index,
        path: format!("/s/f{index}.nef").into_bytes(),
        file: format!("f{index}.nef"),
        rrdata_path: format!("/s/f{index}.nef.rrdata").into_bytes(),
        doc: d,
    }
}

fn exposure(x: f64) -> Option<JsonMap<f64>> {
    Some(map(vec![("exposure", num(x))]))
}

fn keys(k: &[usize]) -> BTreeSet<usize> {
    k.iter().copied().collect()
}

fn same_x(x: f64, y: f64) -> Option<f64> {
    if (x - y).abs() > 0.001 { None } else { Some(x) }
}

fn sequence() -> Vec<Frame<f64>> {
    vec![
        frame(0, Some(doc(0, exposure(9.0)))),
        frame(1, Some(doc(5, exposure(0.0)))),
        frame(2, Some(doc(0, exposure(7.0)))),
        frame(3, Some(doc(0, None))),
        frame(4, Some(doc(5, exposure(4.0)))),
        frame(5, None),
        frame(6, Some(doc(5, None))),
        frame(7, Some(doc(0, exposure(1.0)))),
    ]
}

#[test]
fn ramp_sources_follow_the_bracketing_keyframes() {
    let frames = sequence();
    let ks = keys(&[1, 4, 6]);
    assert_eq!(ramp_source(&frames, &ks, 1), RampSource::Keyframe);
    assert_eq!(ramp_source(&frames, &ks, 0), RampSource::Carry { from: 1 });
    assert_eq!(ramp_source(&frames, &ks, 2), RampSource::Ramp { before: 1, after: 4, nearest: 1 });
    assert_eq!(ramp_source(&frames, &ks, 3), RampSource::Ramp { before: 1, after: 4, nearest: 4 });
    // keyframe 6 has no adjustments: the nearest with adjustments decides
    assert_eq!(ramp_source(&frames, &ks, 5), RampSource::Carry { from: 4 });
    // keyframe 6 has none, so the nearest keyframe that has some is used
    assert_eq!(ramp_source(&frames, &ks, 7), RampSource::Carry { from: 4 });
    assert_eq!(ramp_source(&frames, &keys(&[]), 2), RampSource::Unplanned);
    assert_eq!(ramp_source(&frames, &keys(&[3, 5, 6]), 2), RampSource::Unplanned);
}

#[test]
fn a_tie_goes_to_the_earlier_keyframe() {
    let frames = vec![
        frame(0, Some(doc(5, exposure(0.0)))),
        frame(1, None),
        frame(2, Some(doc(5, exposure(2.0)))),
    ];
    assert_eq!(ramp_source(&frames, &keys(&[0, 2]), 1), RampSource::Ramp { before: 0, after: 2, nearest: 0 });
}

#[test]
fn planned_frames_blend_between_keyframes() {
    let frames = sequence();
    let ks = keys(&[1, 4, 6]);
    let third = |x: f64, y: f64| Some(x + (y - x) / 3.0);
    let p2 = plan_frame(&frames, &ks, 2, &third, &same_x);
    assert_eq!(p2.index, 2);
    assert!(!p2.is_keyframe);
    assert_eq!(p2.adjustments, exposure(4.0 / 3.0));
    assert_eq!(p2.deflicker_stops, None);
    let p1 = plan_frame(&frames, &ks, 1, &third, &same_x);
    assert_eq!(p1, PlannedFrame { index: 1, is_keyframe: true, adjustments: None, deflicker_stops: None });
    let p0 = plan_frame(&frames, &ks, 0, &third, &same_x);
    assert_eq!(p0.adjustments, exposure(0.0));
    let p7 = plan_frame(&frames, &ks, 7, &third, &same_x);
    assert_eq!(p7.adjustments, exposure(4.0));
    let none = plan_frame(&frames, &keys(&[3, 6]), 7, &third, &same_x);
    assert_eq!(none.adjustments, None);
}

#[test]
fn frames_are_found_by_index() {
    let frames = sequence();
    assert_eq!(frame_by_index(&frames, 4).unwrap().file, "f4.nef");
    assert!(frame_by_index(&frames, 40).is_none());
    assert_eq!(adjustments_of(&frames, 2), exposure(7.0).as_ref());
    assert!(adjustments_of(&frames, 3).is_none());
    assert!(adjustments_of(&frames, 5).is_none());
    let dup = vec![frame(1, Some(doc(0, exposure(1.0)))), frame(1, Some(doc(0, exposure(2.0))))];
    assert_eq!(adjustments_of(&dup, 1), exposure(2.0).as_ref());
}

#[test]
fn five_star_frames_are_suggested() {
    let frames = sequence();
    assert_eq!(suggested_keyframes(&frames), vec![1, 4, 6]);
    assert_eq!(rating_of(&frames[5]), 0);
    assert_eq!(DEFAULT_RATING_THRESHOLD, 5);
    assert_eq!(THUMB_MAX_DIM, 220);
}

#[test]
fn scan_lists_each_parameter_once_in_panel_order() {
    let frames = vec![
        frame(0, Some(doc(0, Some(map(vec![("contrast", num(1.0)), ("exposure", num(0.0)), ("zeta", num(1.0))]))))),
        frame(1, Some(doc(0, Some(map(vec![("exposure", num(1.0)), ("alpha", num(1.0)), ("crop", num(1.0))]))))),
        frame(2, None),
    ];
    assert_eq!(ramp_param_names(&frames), vec!["exposure", "contrast", "alpha", "zeta"]);
}

#[test]
fn planning_needs_a_keyframe() {
    assert_eq!(
        require_keyframes(&keys(&[])),
        Err("No keyframes selected. Rate at least two frames 5 stars first.".to_string())
    );
    assert_eq!(require_keyframes(&keys(&[3])), Ok(()));
}

#[test]
fn keyframes_only_get_their_rating_stamped() {
    let frames = sequence();
    let hand_marked = frames[2].doc.as_ref().map(|d| d.copy());
    let planned = PlannedFrame { index: 2, is_keyframe: true, adjustments: None, deflicker_stops: None };
    let w = plan_sidecar_write(&planned, &frames[2], true, false, true).unwrap();
    assert!(w.stamps_rating);
    assert!(w.backup);
    assert_eq!(w.doc.rating, 5);
    assert_eq!(w.doc.adjustments, hand_marked.unwrap().adjustments);
    let already = PlannedFrame { index: 1, is_keyframe: true, adjustments: None, deflicker_stops: None };
    assert!(plan_sidecar_write(&already, &frames[1], true, false, true).is_none());
}

#[test]
fn ramped_frames_get_their_adjustments_written() {
    let frames = sequence();
    let planned = PlannedFrame { index: 5, is_keyframe: false, adjustments: exposure(3.0), deflicker_stops: None };
    let w = plan_sidecar_write(&planned, &frames[5], true, false, false).unwrap();
    assert!(!w.stamps_rating);
    assert!(!w.backup);
    let mut expected = default_doc();
    expected.adjustments = exposure(3.0);
    assert_eq!(w.doc, expected);
    let w2 = plan_sidecar_write(&planned, &frames[2], true, true, true).unwrap();
    assert!(!w2.backup);
    assert_eq!(w2.doc.rating, 0);
    let nothing = PlannedFrame { index: 7, is_keyframe: false, adjustments: None, deflicker_stops: None };
    assert!(plan_sidecar_write(&nothing, &frames[7], true, false, true).is_none());
}

#[test]
fn write_results_count_each_kind_of_write() {
    let frames = sequence();
    let mut result = WriteResult::new();
    let stamp = PlannedFrame { index: 2, is_keyframe: true, adjustments: None, deflicker_stops: None };
    let ramp = PlannedFrame { index: 3, is_keyframe: false, adjustments: exposure(1.0), deflicker_stops: None };
    result.tally(&plan_sidecar_write(&stamp, &frames[2], true, false, true).unwrap());
    result.tally(&plan_sidecar_write(&ramp, &frames[3], true, false, true).unwrap());
    result.tally(&plan_sidecar_write(&ramp, &frames[3], true, true, true).unwrap());
    assert_eq!(result, WriteResult { written_count: 2, backed_up_count: 2, keyframes_rated_count: 1 });
}

#[test]
fn default_document_is_empty() {
    let d: RrDoc<f64> = default_doc();
    assert_eq!(d, RrDoc { version: 1, rating: 0, adjustments: None, tags: JsonValue::Null, extra: JsonMap::new() });
}

#[test]
fn frames_after_the_last_keyframe_inherit_it() {
    let frames = sequence();
    let ks = keys(&[1, 4]);
    assert_eq!(ramp_source(&frames, &ks, 7), RampSource::Carry { from: 4 });
    let p = plan_frame(&frames, &ks, 7, &|x: f64, y: f64| Some(x + y), &same_x);
    assert_eq!(p.adjustments, exposure(4.0));
}

#[test]
fn written_adjustments_keep_the_frames_own_ui_state() {
    let own = map(vec![
        ("exposure", num(9.0)),
        ("showClipping", JsonValue::Bool(true)),
        ("sectionVisibility", map_value(vec![("basic", JsonValue::Bool(false))])),
    ]);
    let target = frame(3, Some(doc(2, Some(own))));
    let planned_adj = map(vec![
        ("exposure", num(1.0)),
        ("showClipping", JsonValue::Bool(false)),
        ("rating", num(5.0)),
    ]);
    let planned = PlannedFrame { index: 3, is_keyframe: false, adjustments: Some(planned_adj), deflicker_stops: None };
    let w = plan_sidecar_write(&planned, &target, false, false, true).unwrap();
    assert_eq!(
        w.doc.adjustments,
        Some(map(vec![
            ("exposure", num(1.0)),
            ("showClipping", JsonValue::Bool(true)),
            ("sectionVisibility", map_value(vec![("basic", JsonValue::Bool(false))])),
        ]))
    );
    assert_eq!(w.doc.rating, 2);
}

fn map_value(pairs: Vec<(&str, JsonValue<f64>)>) -> JsonValue<f64> {
    JsonValue::Object(map(pairs))
}

#[test]
fn ui_state_is_dropped_when_the_frame_has_none() {
    let mut planned = map(vec![("exposure", num(1.0)), ("rating", num(5.0))]);
    rrtimelapse::params::keep_own_ui_state(&mut planned, None);
    assert_eq!(planned, map(vec![("exposure", num(1.0))]));
    let mut m = map(vec![("a", num(1.0)), ("b", num(2.0))]);
    m.remove("a");
    m.remove("zz");
    assert_eq!(m, map(vec![("b", num(2.0))]));
}

#[test]
fn deflicker_shifts_only_the_exposure() {
    let plus = |a: f64, b: f64| if (a + b).is_finite() { Some(a + b) } else { None };
    let mut adj = map(vec![("exposure", num(0.5)), ("contrast", num(10.0))]);
    shift_exposure(&mut adj, 0.0, -0.25, &plus);
    assert_eq!(adj, map(vec![("exposure", num(0.25)), ("contrast", num(10.0))]));

    // without a numeric exposure the shift starts from zero
    let mut adj = map(vec![("exposure", JsonValue::String("x".to_string())), ("tint", num(3.0))]);
    shift_exposure(&mut adj, 0.0, 0.75, &plus);
    assert_eq!(adj, map(vec![("exposure", num(0.75)), ("tint", num(3.0))]));

    let mut adj = map(vec![("tint", num(3.0))]);
    shift_exposure(&mut adj, 0.0, 1.0, &plus);
    assert_eq!(adj, map(vec![("exposure", num(1.0)), ("tint", num(3.0))]));

    // a shift that is no number is written as null
    let mut adj = map(vec![("exposure", num(f64::MAX))]);
    shift_exposure(&mut adj, 0.0, f64::MAX, &plus);
    assert_eq!(adj, map(vec![("exposure", JsonValue::Null)]));
}

#[test]
fn a_keyframe_without_adjustments_falls_back_to_one_with() {
    // keyframe 1 has no sidecar: frame 2 takes keyframe 0's adjustments
    let frames = vec![frame(0, Some(doc(5, exposure(2.0)))), frame(1, None), frame(2, None)];
    assert_eq!(ramp_source(&frames, &keys(&[0, 1]), 2), RampSource::Carry { from: 0 });
    let p = plan_frame(&frames, &keys(&[0, 1]), 2, &|x: f64, _y: f64| Some(x), &same_x);
    assert_eq!(p.adjustments, exposure(2.0));
    // between keyframes 0 and 3, the nearer one (3) has none: keyframe 0 is used
    let frames = vec![
        frame(0, Some(doc(5, exposure(2.0)))),
        frame(1, None),
        frame(2, None),
        frame(3, Some(doc(5, None))),
    ];
    assert_eq!(ramp_source(&frames, &keys(&[0, 3]), 2), RampSource::Carry { from: 0 });
    // equally near keyframes with adjustments: the earlier wins
    let frames = vec![
        frame(0, Some(doc(5, exposure(1.0)))),
        frame(1, Some(doc(5, None))),
        frame(2, None),
        frame(3, Some(doc(5, None))),
        frame(4, Some(doc(5, exposure(9.0)))),
    ];
    assert_eq!(ramp_source(&frames, &keys(&[0, 1, 3, 4]), 2), RampSource::Carry { from: 0 });
}

#[test]
fn a_sequence_is_planned_frame_by_frame_with_deflicker() {
    let frames = sequence();
    let ks = keys(&[1, 4, 6]);
    let third = |x: f64, y: f64| Some(x + (y - x) / 3.0);
    let mixes = vec![third; frames.len()];
    let mut stops = vec![None; frames.len()];
    stops[1] = Some(0.5);
    stops[2] = Some(0.25);
    stops[3] = Some(1.0);
    let plus = |a: f64, b: f64| Some(a + b);
    let plan = plan_sequence(&frames, &ks, &mixes, &same_x, &stops, 0.0, &plus);
    assert_eq!(plan.len(), frames.len());
    // keyframes are never corrected
    assert_eq!(plan[1], PlannedFrame { index: 1, is_keyframe: true, adjustments: None, deflicker_stops: None });
    assert_eq!(plan[2].adjustments, exposure(4.0 / 3.0 + 0.25));
    assert_eq!(plan[2].deflicker_stops, Some(0.25));
    assert_eq!(plan[0].adjustments, exposure(0.0));
    assert_eq!(plan[0].deflicker_stops, None);
    let unplanned = plan_sequence(&frames, &keys(&[3, 6]), &mixes, &same_x, &stops, 0.0, &plus);
    assert_eq!(unplanned[2].adjustments, None);
    assert_eq!(unplanned[2].deflicker_stops, None);
}

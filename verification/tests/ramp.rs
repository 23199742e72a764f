use rrtimelapse::json::{copy_values, JsonMap, JsonValue};
use rrtimelapse::params::{
    flatten_ramp_leaves, interpolate_curve_set, interpolate_masks, set_by_path,
    sort_params_rapidraw_order, split_path, RampLeaves,
};
use rrtimelapse::interpolate::ramp_between;

fn num(x: f64) -> JsonValue<f64> {
    JsonValue::Number(x)
}

fn text(x: &str) -> JsonValue<f64> {
    JsonValue::String(x.to_string())
}

fn map(pairs: Vec<(&str, JsonValue<f64>)>) -> JsonMap<f64> {
    let mut m = JsonMap::new();
    for (k, v) in pairs {
        m.insert(k.to_string(), v);
    }
    m
}

fn obj(pairs: Vec<(&str, JsonValue<f64>)>) -> JsonValue<f64> {
    JsonValue::Object(map(pairs))
}

fn point(x: f64, y: f64) -> JsonValue<f64> {
    obj(vec![("x", num(x)), ("y", num(y))])
}

fn halfway(x: f64, y: f64) -> Option<f64> {
    let v = x + (y - x) * 0.5;
    if v.is_finite() {
        Some(v)
    } else {
        None
    }
}

fn quarter(x: f64, y: f64) -> Option<f64> {
    Some(x + (y - x) * 0.25)
}

fn same_x(x: f64, y: f64) -> Option<f64> {
    if (x - y).abs() > 0.001 {
        None
    } else {
        Some(x)
    }
}

fn leaves_of(m: &JsonMap<f64>) -> Vec<(String, f64)> {
    let mut leaves = RampLeaves::new();
    flatten_ramp_leaves(m, "", &mut leaves);
    (0..leaves.len()).map(|i| (leaves.path_at(i).clone(), *leaves.value_at(i))).collect()
}

#[test]
fn map_keeps_keys_sorted_and_overwrites() {
    let mut m: JsonMap<f64> = JsonMap::new();
    m.insert("b".to_string(), num(2.0));
    m.insert("a".to_string(), num(1.0));
    m.insert("c".to_string(), num(3.0));
    m.insert("b".to_string(), num(20.0));
    assert_eq!(m.len(), 3);
    assert_eq!(m.key_at(0), "a");
    assert_eq!(m.key_at(1), "b");
    assert_eq!(m.key_at(2), "c");
    assert_eq!(m.get("b"), Some(&num(20.0)));
    assert_eq!(m.get("z"), None);
}

#[test]
fn copy_is_equal() {
    let v = obj(vec![("a", JsonValue::Array(vec![num(1.0), text("x"), JsonValue::Null])), ("b", JsonValue::Bool(true))]);
    assert_eq!(v.copy(), v);
    let items = vec![num(1.0), obj(vec![("k", num(2.0))])];
    assert_eq!(copy_values(&items), items);
}

#[test]
fn flatten_walks_nested_numbers_and_skips_carried_keys() {
    let adj = map(vec![
        ("exposure", num(0.5)),
        ("hsl", obj(vec![("reds", obj(vec![("hue", num(-12.0)), ("name", text("r"))]))])),
        ("crop", obj(vec![("x", num(1.0))])),
        ("rotation", num(3.0)),
        ("rating", num(5.0)),
        ("curves", obj(vec![("luma", JsonValue::Array(vec![point(0.0, 0.0)]))])),
        ("masks", JsonValue::Array(vec![])),
        ("toneMapper", text("agx")),
        ("enabled", JsonValue::Bool(true)),
    ]);
    assert_eq!(
        leaves_of(&adj),
        vec![("exposure".to_string(), 0.5), ("hsl.reds.hue".to_string(), -12.0)]
    );
}

#[test]
fn flatten_checks_skip_list_only_at_top_level() {
    let adj = map(vec![("parametricCurve", obj(vec![("rotation", num(2.0)), ("crop", num(1.0))]))]);
    assert_eq!(
        leaves_of(&adj),
        vec![
            ("parametricCurve.crop".to_string(), 1.0),
            ("parametricCurve.rotation".to_string(), 2.0)
        ]
    );
    let mut leaves = RampLeaves::new();
    flatten_ramp_leaves(&map(vec![("crop", num(1.0))]), "local", &mut leaves);
    assert_eq!(leaves.len(), 1);
    assert_eq!(leaves.path_at(0), "local.crop");
    assert_eq!(leaves.get("local.crop"), Some(&1.0));
}

#[test]
fn split_path_keeps_empty_pieces() {
    assert_eq!(split_path("a.b.c"), vec!["a", "b", "c"]);
    assert_eq!(split_path(""), vec![""]);
    assert_eq!(split_path("a..b."), vec!["a", "", "b", ""]);
}

#[test]
fn set_by_path_writes_nested_and_creates_parents() {
    let mut m = map(vec![("hsl", obj(vec![("reds", obj(vec![("hue", num(1.0))]))]))]);
    set_by_path(&mut m, "hsl.reds.hue", num(7.0));
    set_by_path(&mut m, "new.leaf", num(3.0));
    assert_eq!(m.get("hsl"), Some(&obj(vec![("reds", obj(vec![("hue", num(7.0))]))])));
    assert_eq!(m.get("new"), Some(&obj(vec![("leaf", num(3.0))])));
}

#[test]
fn set_by_path_stops_at_a_non_object() {
    let mut m = map(vec![("exposure", num(1.0))]);
    set_by_path(&mut m, "exposure.x", num(3.0));
    assert_eq!(m, map(vec![("exposure", num(1.0))]));
}

#[test]
fn curve_sets_blend_point_by_point() {
    let a = map(vec![("luma", JsonValue::Array(vec![point(0.0, 0.0), point(128.0, 100.0)]))]);
    let b = map(vec![("luma", JsonValue::Array(vec![point(0.0, 20.0), point(128.0, 140.0)]))]);
    let r = interpolate_curve_set(&a, &b, &halfway, &same_x).unwrap();
    assert_eq!(r, map(vec![("luma", JsonValue::Array(vec![point(0.0, 10.0), point(128.0, 120.0)]))]));
}

#[test]
fn curve_sets_that_disagree_do_not_blend() {
    let a = map(vec![("luma", JsonValue::Array(vec![point(0.0, 0.0), point(128.0, 100.0)]))]);
    let moved = map(vec![("luma", JsonValue::Array(vec![point(0.0, 20.0), point(130.0, 140.0)]))]);
    let shorter = map(vec![("luma", JsonValue::Array(vec![point(0.0, 20.0)]))]);
    let other_channel = map(vec![("red", JsonValue::Array(vec![point(0.0, 0.0), point(128.0, 1.0)]))]);
    let no_y = map(vec![("luma", JsonValue::Array(vec![point(0.0, 20.0), obj(vec![("x", num(128.0))])]))]);
    assert_eq!(interpolate_curve_set(&a, &moved, &halfway, &same_x), None);
    assert_eq!(interpolate_curve_set(&a, &shorter, &halfway, &same_x), None);
    assert_eq!(interpolate_curve_set(&a, &other_channel, &halfway, &same_x), None);
    assert_eq!(interpolate_curve_set(&a, &no_y, &halfway, &same_x), None);
    let tiny_shift = map(vec![("luma", JsonValue::Array(vec![point(0.0005, 20.0), point(128.0, 140.0)]))]);
    assert_eq!(
        interpolate_curve_set(&a, &tiny_shift, &halfway, &same_x),
        Some(map(vec![("luma", JsonValue::Array(vec![point(0.0, 10.0), point(128.0, 120.0)]))]))
    );
}

fn radial(id: &str, cx: f64, rot: f64, opacity: f64) -> JsonValue<f64> {
    obj(vec![
        ("id", text(id)),
        ("type", text("radial")),
        ("opacity", num(opacity)),
        ("parameters", obj(vec![("centerX", num(cx)), ("rotation", num(rot)), ("label", text("sky"))])),
    ])
}

fn mask(id: &str, exposure: f64, opacity: f64, subs: Vec<JsonValue<f64>>) -> JsonValue<f64> {
    obj(vec![
        ("id", text(id)),
        ("opacity", num(opacity)),
        ("adjustments", obj(vec![("exposure", num(exposure))])),
        ("subMasks", JsonValue::Array(subs)),
    ])
}

#[test]
fn matched_masks_track_their_geometry() {
    let a = vec![mask("m1", 0.0, 100.0, vec![radial("s1", 0.2, 10.0, 50.0)])];
    let b = vec![mask("m1", 1.0, 50.0, vec![radial("s1", 0.6, 30.0, 100.0)])];
    let r = interpolate_masks(&a, &b, &a, &halfway, &same_x);
    assert_eq!(r, vec![mask("m1", 0.5, 75.0, vec![radial("s1", 0.4, 20.0, 75.0)])]);
}

#[test]
fn unmatched_or_untracked_masks_are_carried() {
    let brush = obj(vec![("id", text("s2")), ("type", text("brush")), ("parameters", obj(vec![("size", num(3.0))]))]);
    let brush_b = obj(vec![("id", text("s2")), ("type", text("brush")), ("parameters", obj(vec![("size", num(9.0))]))]);
    let a = vec![mask("m1", 0.0, 100.0, vec![brush.copy()]), mask("only_a", 1.0, 1.0, vec![])];
    let b = vec![mask("m1", 1.0, 100.0, vec![brush_b])];
    let r = interpolate_masks(&b, &a, &a, &halfway, &same_x);
    assert_eq!(r[0], mask("m1", 0.5, 100.0, vec![brush]));
    assert_eq!(r[1], mask("only_a", 1.0, 1.0, vec![]));
}

#[test]
fn submask_whose_shape_changed_is_carried() {
    let linear = obj(vec![("id", text("s1")), ("type", text("linear")), ("parameters", obj(vec![("startX", num(1.0))]))]);
    let a = vec![mask("m1", 0.0, 100.0, vec![radial("s1", 0.2, 10.0, 50.0)])];
    let b = vec![mask("m1", 0.0, 100.0, vec![linear])];
    let r = interpolate_masks(&a, &b, &a, &halfway, &same_x);
    assert_eq!(r, a);
}

#[test]
fn ramp_between_blends_leaves_and_keeps_the_rest_from_nearest() {
    let a = map(vec![
        ("exposure", num(0.0)),
        ("contrast", num(10.0)),
        ("crop", obj(vec![("x", num(0.0))])),
        ("lutName", text("a")),
        ("curves", obj(vec![("luma", JsonValue::Array(vec![point(0.0, 0.0)]))])),
    ]);
    let b = map(vec![
        ("exposure", num(2.0)),
        ("crop", obj(vec![("x", num(9.0))])),
        ("lutName", text("b")),
        ("curves", obj(vec![("luma", JsonValue::Array(vec![point(0.0, 40.0)]))])),
    ]);
    let r = ramp_between(&a, &b, &a, &quarter, &same_x);
    assert_eq!(r.get("exposure"), Some(&num(0.5)));
    assert_eq!(r.get("contrast"), Some(&num(10.0)));
    assert_eq!(r.get("crop"), Some(&obj(vec![("x", num(0.0))])));
    assert_eq!(r.get("lutName"), Some(&text("a")));
    assert_eq!(r.get("curves"), Some(&obj(vec![("luma", JsonValue::Array(vec![point(0.0, 10.0)]))])));
    let from_b = ramp_between(&a, &b, &b, &quarter, &same_x);
    assert_eq!(from_b.get("lutName"), Some(&text("b")));
    assert_eq!(from_b.get("contrast"), None);
}

#[test]
fn ramp_between_writes_null_for_unrepresentable_blends() {
    let a = map(vec![("exposure", num(f64::MAX))]);
    let b = map(vec![("exposure", num(-f64::MAX))]);
    let r = ramp_between(&a, &b, &a, &|x: f64, y: f64| {
        let v = x + (y - x) * 0.25;
        if v.is_finite() { Some(v) } else { None }
    }, &same_x);
    assert_eq!(r.get("exposure"), Some(&JsonValue::Null));
}

#[test]
fn ramp_between_blends_masks_by_id() {
    let a = map(vec![("masks", JsonValue::Array(vec![mask("m1", 0.0, 0.0, vec![])]))]);
    let b = map(vec![("masks", JsonValue::Array(vec![mask("m1", 4.0, 100.0, vec![])]))]);
    let r = ramp_between(&a, &b, &b, &halfway, &same_x);
    assert_eq!(r.get("masks"), Some(&JsonValue::Array(vec![mask("m1", 2.0, 50.0, vec![])])));
}

#[test]
fn params_sort_in_rapidraw_panel_order() {
    let params = vec![
        "zzzUnknown".to_string(),
        "hsl.reds.hue".to_string(),
        "contrast".to_string(),
        "aaaUnknown".to_string(),
        "exposure".to_string(),
        "grainRoughness".to_string(),
    ];
    assert_eq!(
        sort_params_rapidraw_order(params),
        vec!["exposure", "contrast", "hsl.reds.hue", "grainRoughness", "aaaUnknown", "zzzUnknown"]
    );
}

#[test]
fn misaligned_curves_are_carried_from_the_nearest_keyframe() {
    let a = map(vec![
        ("pointCurves", obj(vec![("luma", JsonValue::Array(vec![point(0.0, 0.0), point(1.0, 1.0)]))])),
    ]);
    let b = map(vec![
        ("pointCurves", obj(vec![("luma", JsonValue::Array(vec![point(0.0, 8.0)]))])),
    ]);
    let from_a = ramp_between(&a, &b, &a, &quarter, &same_x);
    assert_eq!(from_a.get("pointCurves"), a.get("pointCurves"));
    let from_b = ramp_between(&a, &b, &b, &quarter, &same_x);
    assert_eq!(from_b.get("pointCurves"), b.get("pointCurves"));
    // a curve set that only one keyframe has is carried too
    let none = map(vec![("exposure", num(1.0))]);
    let r = ramp_between(&a, &none, &a, &quarter, &same_x);
    assert_eq!(r.get("pointCurves"), a.get("pointCurves"));
}

#[test]
fn a_channel_only_one_side_has_stops_the_curve_blend() {
    let a = map(vec![("luma", JsonValue::Array(vec![point(0.0, 0.0)]))]);
    let b = map(vec![
        ("luma", JsonValue::Array(vec![point(0.0, 8.0)])),
        ("red", JsonValue::Array(vec![point(0.0, 8.0)])),
    ]);
    assert_eq!(interpolate_curve_set(&a, &b, &halfway, &same_x), None);
    assert_eq!(interpolate_curve_set(&b, &a, &halfway, &same_x), None);
}

#[test]
fn dotted_top_level_keys_are_one_step() {
    let a = map(vec![
        ("crop", obj(vec![("x", num(1.0))])),
        ("crop.x", num(0.0)),
        ("masks", obj(vec![("x", num(5.0))])),
        ("masks.x", num(0.0)),
    ]);
    let b = map(vec![
        ("crop", obj(vec![("x", num(9.0))])),
        ("crop.x", num(8.0)),
        ("masks", obj(vec![("x", num(6.0))])),
        ("masks.x", num(4.0)),
    ]);
    let r = ramp_between(&a, &b, &a, &halfway, &same_x);
    assert_eq!(r.get("crop"), Some(&obj(vec![("x", num(1.0))])));
    assert_eq!(r.get("crop.x"), Some(&num(4.0)));
    assert_eq!(r.get("masks"), Some(&obj(vec![("x", num(5.0))])));
    assert_eq!(r.get("masks.x"), Some(&num(2.0)));
    let nested_a = map(vec![("hsl", obj(vec![("reds.hue", num(0.0))]))]);
    let nested_b = map(vec![("hsl", obj(vec![("reds.hue", num(10.0))]))]);
    let r = ramp_between(&nested_a, &nested_b, &nested_a, &halfway, &same_x);
    assert_eq!(r, map(vec![("hsl", obj(vec![("reds.hue", num(5.0))]))]));
}

#[test]
fn a_written_leaf_is_flattened_back_and_nothing_else_changes() {
    let mut adj = map(vec![
        ("exposure", num(1.0)),
        ("hsl", obj(vec![("reds", obj(vec![("hue", num(3.0))]))])),
        ("crop", obj(vec![("x", num(0.0))])),
    ]);
    let before = leaves_of(&adj);
    set_by_path(&mut adj, "hsl.blues.hue", num(7.0));
    let mut expected = before.clone();
    expected.push(("hsl.blues.hue".to_string(), 7.0));
    expected.sort_by(|a, b| a.0.cmp(&b.0));
    assert_eq!(leaves_of(&adj), expected);
    set_by_path(&mut adj, "exposure", num(2.0));
    assert_eq!(leaves_of(&adj)[0], ("exposure".to_string(), 2.0));
}

#[test]
fn empty_pieces_of_a_written_path_are_kept() {
    let mut adj = map(vec![("a", obj(vec![]))]);
    set_by_path(&mut adj, "a..b", num(4.0));
    assert_eq!(leaves_of(&adj), vec![("a..b".to_string(), 4.0)]);
    let mut top = map(vec![("exposure", num(1.0))]);
    set_by_path(&mut top, "", num(2.0));
    assert_eq!(leaves_of(&top), vec![("".to_string(), 2.0), ("exposure".to_string(), 1.0)]);
}

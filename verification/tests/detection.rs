//! Detected regions: which are kept, in which order they are read, and what is written for them.

use image::{GrayImage, Luma};
use imageproc::{
    distance_transform::Norm,
    morphology::{close, dilate},
};
use koharu::bits::double_key;
use koharu::closing::{closed_mask_for, Rect};
use koharu::color::normalize_text_color;
use koharu::config::KoharuLayoutRFDetrSeg2XLConfig;
use koharu::language::Language;
use koharu::layout::{sort_spatial, LayoutItem, LayoutKind, Metrics, ReadingOrder, SpatialAxis};
use koharu::mask::{mask_for, valid_mask, GrayMask, ImageSize, LayoutDetection, LayoutMask};
use koharu::paint::TextPaint;
use koharu::palette::color_palette;
use koharu::pixel::MaskPixel;
use koharu::reading::{best_container, place_layer, reading_order};
use koharu::regions::{
    collect_items, layout_kind, link_dialogue_region, linked_role, managed_text_group,
    mask_overlap, preserve_mask_outside_region, region_kind, remove_previous_regions,
    skip_detection, write_region, EntityFact, GroupFact, LayerFact, Maker, RegionFact, RegionKind,
    RegionShape, TextLink, TextRegionFact, TextRole,
};
use koharu::stage::EntityId;
use koharu::suppression::{
    non_maximum_suppression, pick, remove_nested_text_detections, Nesting, Overlaps,
};
use koharu::typography::{infer_typography, RgbPage};

const DIALOGUE_MASK_CONTAINMENT_THRESHOLD: f32 = 0.9;

fn detected(label: &str, score: f32, bbox: [f32; 4], area: u32, mask: LayoutMask) -> LayoutDetection {
    LayoutDetection {
        label: label.to_owned(),
        score: score.to_bits(),
        bbox: bbox.map(f32::to_bits),
        area,
        mask,
    }
}

fn detection(label: &str, score: f32, bbox: [f32; 4]) -> LayoutDetection {
    detected(
        label,
        score,
        bbox,
        0,
        LayoutMask {
            x: 0,
            y: 0,
            width: 1,
            height: 1,
            pixels: vec![0],
        },
    )
}

fn full_mask(x: u32, y: u32, width: u32, height: u32) -> LayoutMask {
    LayoutMask {
        x,
        y,
        width,
        height,
        pixels: vec![u8::MAX; (width * height) as usize],
    }
}

fn score(detection: &LayoutDetection) -> f32 {
    f32::from_bits(detection.score)
}

fn bounds(detection: &LayoutDetection) -> [f32; 4] {
    detection.bbox.map(f32::from_bits)
}

fn area(bounds: [f32; 4]) -> f32 {
    (bounds[2] - bounds[0]).max(0.0) * (bounds[3] - bounds[1]).max(0.0)
}

fn intersection_over_union(left: [f32; 4], right: [f32; 4]) -> f32 {
    let intersection = (left[2].min(right[2]) - left[0].max(right[0])).max(0.0)
        * (left[3].min(right[3]) - left[1].max(right[1])).max(0.0);
    let union = area(left) + area(right) - intersection;
    if union <= 0.0 {
        0.0
    } else {
        intersection / union
    }
}

fn mask_containment(container: &LayoutMask, value: &LayoutMask, bounds: [f32; 4]) -> f32 {
    if !valid_mask(container) || !valid_mask(value) {
        return 0.0;
    }
    if !bounds.iter().all(|value| value.is_finite()) {
        return 0.0;
    }
    let right_end = value.x.saturating_add(value.width) as f32;
    let bottom_end = value.y.saturating_add(value.height) as f32;
    let window = Rect {
        left: bounds[0].floor().max(value.x as f32).min(right_end) as u32,
        top: bounds[1].floor().max(value.y as f32).min(bottom_end) as u32,
        right: bounds[2].ceil().max(value.x as f32).min(right_end) as u32,
        bottom: bounds[3].ceil().max(value.y as f32).min(bottom_end) as u32,
    };
    if window.left >= window.right || window.top >= window.bottom {
        return 0.0;
    }
    let (shared, covered) = mask_overlap(container, value, window);
    if covered == 0 {
        0.0
    } else {
        shared as f32 / covered as f32
    }
}

fn suppress(detections: Vec<LayoutDetection>, threshold: f32) -> Vec<LayoutDetection> {
    let kept = {
        let boxes = detections.iter().map(bounds).collect::<Vec<_>>();
        let overlaps = Overlaps {
            comparable: |left: usize, right: usize| {
                let smaller = area(boxes[left]).min(area(boxes[right]));
                let larger = area(boxes[left]).max(area(boxes[right]));
                !(larger <= 0.0 || smaller / larger < 0.9)
            },
            overlapping: |left: usize, right: usize, strict: bool| {
                let threshold = if strict { 0.95 } else { threshold };
                intersection_over_union(boxes[left], boxes[right]) >= threshold
            },
        };
        non_maximum_suppression(&detections, &overlaps)
    };
    pick(detections, &kept)
}

fn without_nested(detections: Vec<LayoutDetection>) -> Vec<LayoutDetection> {
    let kept = {
        let nesting = Nesting {
            extended: |child: usize| area(bounds(&detections[child])) > 0.0,
            nests: |parent: usize, child: usize| {
                area(bounds(&detections[parent])) > area(bounds(&detections[child]))
                    && mask_containment(
                        &detections[parent].mask,
                        &detections[child].mask,
                        bounds(&detections[child]),
                    ) >= 0.8
            },
        };
        remove_nested_text_detections(&detections, &nesting)
    };
    pick(detections, &kept)
}

fn item(kind: LayoutKind, bounds: [f64; 4]) -> LayoutItem {
    LayoutItem {
        kind,
        bounds: bounds.map(f64::to_bits),
        center: [
            ((bounds[0] + bounds[2]) * 0.5).to_bits(),
            ((bounds[1] + bounds[3]) * 0.5).to_bits(),
        ],
    }
}

fn item_bounds(item: &LayoutItem) -> [f64; 4] {
    item.bounds.map(f64::from_bits)
}

fn axis_bounds(item: &LayoutItem, axis: SpatialAxis) -> (f64, f64) {
    let bounds = item_bounds(item);
    match axis {
        SpatialAxis::X => (bounds[0], bounds[2]),
        SpatialAxis::Y => (bounds[1], bounds[3]),
    }
}

fn axis_center(item: &LayoutItem, axis: SpatialAxis) -> f64 {
    let (start, end) = axis_bounds(item, axis);
    (start + end) * 0.5
}

fn group_center(items: &[LayoutItem], group: &[usize], axis: SpatialAxis) -> f64 {
    group
        .iter()
        .map(|&index| axis_center(&items[index], axis))
        .sum::<f64>()
        / group.len().max(1) as f64
}

fn grouping_tolerance(items: &[LayoutItem], indices: &[usize], axis: SpatialAxis) -> f64 {
    let average = indices
        .iter()
        .map(|&index| {
            let (start, end) = axis_bounds(&items[index], axis);
            (end - start).max(1.0)
        })
        .sum::<f64>()
        / indices.len() as f64;
    (average * 0.85).max(24.0)
}

fn layout_area(bounds: [f64; 4]) -> f64 {
    (bounds[2] - bounds[0]).max(0.0) * (bounds[3] - bounds[1]).max(0.0)
}

fn containment(container: [f64; 4], value: [f64; 4]) -> f64 {
    let value_area = layout_area(value);
    if value_area <= 0.0 {
        return 0.0;
    }
    (container[2].min(value[2]) - container[0].max(value[0])).max(0.0)
        * (container[3].min(value[3]) - container[1].max(value[1])).max(0.0)
        / value_area
}

fn fit(items: &[LayoutItem], candidate: usize, value: usize) -> Option<(i64, i64)> {
    let held = containment(item_bounds(&items[candidate]), item_bounds(&items[value]));
    (held >= 0.5).then(|| {
        (
            double_key(held.to_bits()),
            double_key(layout_area(item_bounds(&items[candidate])).to_bits()),
        )
    })
}

fn breaks(items: &[LayoutItem], group: &[usize], index: usize, axis: SpatialAxis) -> bool {
    let mut group_start = f64::NEG_INFINITY;
    let mut end = f64::NEG_INFINITY;
    for (place, &item) in group.iter().enumerate() {
        let (start, item_end) = axis_bounds(&items[item], axis);
        if place == 0 {
            group_start = start;
            end = item_end;
        } else {
            end = end.max(item_end);
        }
    }
    let (start, item_end) = axis_bounds(&items[index], axis);
    let seam_tolerance = (end - group_start).min(item_end - start).max(0.0) * 0.02;
    group.is_empty() || start >= end || end - start <= seam_tolerance
}

/// Brings some items into the order in which they are read.
fn arranged(items: &Vec<LayoutItem>, mut indices: Vec<usize>, order: ReadingOrder) -> Vec<usize> {
    let axis = match order {
        ReadingOrder::ColumnMajor => SpatialAxis::X,
        ReadingOrder::RowMajor => SpatialAxis::Y,
    };
    let metrics = Metrics {
        joins: |all: &Vec<usize>, group: &Vec<usize>, index: usize| {
            let center = axis_center(&items[index], axis);
            (center - group_center(items, group, axis)).abs()
                <= grouping_tolerance(items, all, axis)
        },
        center: |group: &Vec<usize>| double_key(group_center(items, group, axis).to_bits()),
        breaks: |group: &Vec<usize>, index: usize, axis: SpatialAxis| {
            breaks(items, group, index, axis)
        },
    };
    sort_spatial(items, &mut indices, order, &metrics);
    indices
}

fn read(items: &Vec<LayoutItem>, language: Language) -> Vec<usize> {
    let axis = match language {
        Language::Japanese | Language::ChineseSimplified | Language::ChineseTraditional => {
            SpatialAxis::X
        }
        _ => SpatialAxis::Y,
    };
    let metrics = Metrics {
        joins: |all: &Vec<usize>, group: &Vec<usize>, index: usize| {
            let center = axis_center(&items[index], axis);
            (center - group_center(items, group, axis)).abs()
                <= grouping_tolerance(items, all, axis)
                || group.iter().any(|&item| {
                    let left = axis_bounds(&items[index], axis);
                    let right = axis_bounds(&items[item], axis);
                    left.1.min(right.1) > left.0.max(right.0)
                })
        },
        center: |group: &Vec<usize>| double_key(group_center(items, group, axis).to_bits()),
        breaks: |group: &Vec<usize>, index: usize, axis: SpatialAxis| {
            breaks(items, group, index, axis)
        },
    };
    let fit = |candidate: usize, value: usize| fit(items, candidate, value);
    reading_order(items, language, &fit, &metrics)
}

fn layout_order(detections: &[LayoutDetection], language: Language) -> Vec<usize> {
    let items = detections
        .iter()
        .map(|detection| {
            item(
                layout_kind(&detection.label),
                bounds(detection).map(f64::from),
            )
        })
        .collect::<Vec<_>>();
    read(&items, language)
}

fn text_scores(detections: &[LayoutDetection], language: Language) -> Vec<f32> {
    layout_order(detections, language)
        .into_iter()
        .filter(|&index| detections[index].label == "text")
        .map(|index| score(&detections[index]))
        .collect()
}

fn page(width: u32, height: u32, color: [u8; 3]) -> RgbPage {
    RgbPage {
        width,
        height,
        pixels: color.repeat((width * height) as usize),
    }
}

fn put(page: &mut RgbPage, x: u32, y: u32, color: [u8; 3]) {
    let at = 3 * (y * page.width + x) as usize;
    page.pixels[at..at + 3].copy_from_slice(&color);
}

fn infer(image: &RgbPage, detection: &LayoutDetection) -> Option<TextPaint> {
    let [left, top, right, bottom] = bounds(detection);
    let (width, height) = (image.width as f32, image.height as f32);
    let window = Rect {
        left: (left - 2.0).floor().clamp(0.0, width) as u32,
        top: (top - 2.0).floor().clamp(0.0, height) as u32,
        right: (right + 2.0).ceil().clamp(0.0, width) as u32,
        bottom: (bottom + 2.0).ceil().clamp(0.0, height) as u32,
    };
    if window.right <= window.left || window.bottom <= window.top {
        return None;
    }
    infer_typography(image, &detection.mask, window)
}

fn masked_text(
    local_width: f64,
    local_height: f64,
    angle_degrees: f64,
    color: [u8; 3],
) -> (RgbPage, LayoutDetection) {
    let width = 96;
    let height = 96;
    let (sin, cos) = angle_degrees.to_radians().sin_cos();
    let mut image = page(width, height, [200, 180, 160]);
    let mut pixels = vec![0; (width * height) as usize];
    for y in 0..height {
        for x in 0..width {
            let dx = f64::from(x) + 0.5 - f64::from(width) * 0.5;
            let dy = f64::from(y) + 0.5 - f64::from(height) * 0.5;
            let local_x = dx * cos + dy * sin;
            let local_y = -dx * sin + dy * cos;
            if local_x.abs() <= local_width * 0.5 && local_y.abs() <= local_height * 0.5 {
                pixels[(y * width + x) as usize] = u8::MAX;
                put(&mut image, x, y, color);
            }
        }
    }
    let count = pixels.iter().filter(|value| **value != 0).count() as u32;
    (
        image,
        detected(
            "text",
            1.0,
            [0.0, 0.0, width as f32, height as f32],
            count,
            LayoutMask {
                x: 0,
                y: 0,
                width,
                height,
                pixels,
            },
        ),
    )
}

fn outlined_text(stroke_width: u32, fill: [u8; 3], stroke: [u8; 3]) -> (RgbPage, LayoutDetection) {
    outlined_text_on_background(stroke_width, fill, stroke, [16, 24, 88])
}

fn outlined_text_on_background(
    stroke_width: u32,
    fill: [u8; 3],
    stroke: [u8; 3],
    background: [u8; 3],
) -> (RgbPage, LayoutDetection) {
    let width = 96;
    let height = 96;
    let [left, top, right, bottom] = [20, 38, 76, 58];
    let mut image = page(width, height, background);
    let mut pixels = vec![0; (width * height) as usize];
    for y in top..bottom {
        for x in left..right {
            pixels[(y * width + x) as usize] = u8::MAX;
            let is_fill = x >= left + stroke_width
                && x < right - stroke_width
                && y >= top + stroke_width
                && y < bottom - stroke_width;
            put(&mut image, x, y, if is_fill { fill } else { stroke });
        }
    }
    let count = pixels.iter().filter(|value| **value != 0).count() as u32;
    (
        image,
        detected(
            "text",
            1.0,
            [left as f32, top as f32, right as f32, bottom as f32],
            count,
            LayoutMask {
                x: 0,
                y: 0,
                width,
                height,
                pixels,
            },
        ),
    )
}

fn region_masked_text(fill: [u8; 3], background: [u8; 3]) -> (RgbPage, LayoutDetection) {
    let width = 96;
    let height = 96;
    let [left, top, right, bottom] = [20, 20, 76, 76];
    let mut image = page(width, height, background);
    let mut pixels = vec![0; (width * height) as usize];
    for y in top..bottom {
        for x in left..right {
            pixels[(y * width + x) as usize] = u8::MAX;
        }
    }
    for x in [27, 35, 43, 51, 59, 67] {
        for y in 28..68 {
            for ink_x in x..x + 3 {
                put(&mut image, ink_x, y, fill);
            }
        }
    }
    let count = pixels.iter().filter(|value| **value != 0).count() as u32;
    (
        image,
        detected(
            "text",
            1.0,
            [left as f32, top as f32, right as f32, bottom as f32],
            count,
            LayoutMask {
                x: 0,
                y: 0,
                width,
                height,
                pixels,
            },
        ),
    )
}

fn outlined_text_on_textured_background() -> (RgbPage, LayoutDetection) {
    let width = 96;
    let height = 96;
    let [left, top, right, bottom] = [20, 20, 76, 76];
    let mut image = page(width, height, [24, 32, 96]);
    let mut pixels = vec![0; (width * height) as usize];
    for y in top..bottom {
        for x in left..right {
            pixels[(y * width + x) as usize] = u8::MAX;
            let background = match (x / 7 + y / 5) % 3 {
                0 => [0, 0, 0],
                1 => [38, 48, 128],
                _ => [24, 32, 96],
            };
            put(&mut image, x, y, background);
        }
    }
    for glyph_left in [26, 38, 50, 62] {
        for y in 28..68 {
            for x in glyph_left..glyph_left + 9 {
                let is_fill = x >= glyph_left + 3 && x < glyph_left + 6 && (31..65).contains(&y);
                put(
                    &mut image,
                    x,
                    y,
                    if is_fill { [0, 0, 0] } else { [255, 255, 255] },
                );
            }
        }
    }
    let count = pixels.iter().filter(|value| **value != 0).count() as u32;
    (
        image,
        detected(
            "text",
            1.0,
            [left as f32, top as f32, right as f32, bottom as f32],
            count,
            LayoutMask {
                x: 0,
                y: 0,
                width,
                height,
                pixels,
            },
        ),
    )
}

#[test]
fn out_of_range_thresholds_fall_back_to_the_model_defaults() {
    let settings = KoharuLayoutRFDetrSeg2XLConfig {
        text_threshold: Some(15.0_f32.to_bits()),
        bubble_threshold: Some(f32::NAN.to_bits()),
        panel_threshold: Some(0.55_f32.to_bits()),
    }
    .usable();
    assert_eq!(settings.text_threshold, None);
    assert_eq!(settings.bubble_threshold, None);
    assert_eq!(settings.panel_threshold, Some(0.55_f32.to_bits()));
}

#[test]
fn thresholds_between_zero_and_one_are_kept() {
    for (threshold, kept) in [
        (0.0_f32, true),
        (-0.0, true),
        (1.0, true),
        (0.5, true),
        (1.0000001, false),
        (-0.1, false),
        (f32::INFINITY, false),
        (f32::NEG_INFINITY, false),
        (-f32::NAN, false),
    ] {
        let settings = KoharuLayoutRFDetrSeg2XLConfig {
            text_threshold: Some(threshold.to_bits()),
            bubble_threshold: None,
            panel_threshold: None,
        }
        .usable();
        assert_eq!(
            settings.text_threshold,
            kept.then_some(threshold.to_bits()),
            "{threshold}"
        );
        assert_eq!(settings.bubble_threshold, None);
    }
}

const COMPLETE: TextRegionFact = TextRegionFact {
    generated: true,
    outdated: false,
    recognized: true,
    presented: true,
    bounded: true,
};

#[test]
fn detection_skips_a_page_with_existing_text() {
    let drawn = TextRegionFact {
        generated: false,
        outdated: false,
        recognized: false,
        presented: false,
        bounded: true,
    };
    assert!(skip_detection(&vec![drawn], &|_: usize, _: usize| false));
}

#[test]
fn detection_does_not_skip_an_orphaned_generated_text_region() {
    let orphaned = TextRegionFact {
        recognized: false,
        presented: false,
        ..COMPLETE
    };
    assert!(!skip_detection(&vec![orphaned], &|_: usize, _: usize| false));
}

#[test]
fn detection_does_not_skip_generated_region_without_text_presentation() {
    let hidden = TextRegionFact {
        presented: false,
        ..COMPLETE
    };
    assert!(!skip_detection(&vec![hidden], &|_: usize, _: usize| false));
}

#[test]
fn detection_rebuilds_cached_exact_text_duplicates() {
    let boxes = [[10.0, 10.0, 30.0, 30.0], [10.0, 10.0, 30.0, 30.0_f32]];
    let repeats =
        |left: usize, right: usize| intersection_over_union(boxes[left], boxes[right]) >= 0.95;
    assert!(skip_detection(&vec![COMPLETE], &repeats));
    assert!(!skip_detection(&vec![COMPLETE, COMPLETE], &repeats));
}

#[test]
fn detection_rebuilds_results_from_the_older_nested_region_postprocessor() {
    let outdated = TextRegionFact {
        outdated: true,
        ..COMPLETE
    };
    assert!(!skip_detection(&vec![outdated], &|_: usize, _: usize| false));
}

#[test]
fn detection_runs_on_a_page_without_text() {
    assert!(!skip_detection(&Vec::new(), &|_: usize, _: usize| true));
}

#[test]
fn detection_replaces_its_own_regions_in_scope() {
    let own = EntityFact {
        in_scope: true,
        own: true,
        is_region: true,
    };
    let facts = vec![
        own,
        EntityFact {
            in_scope: false,
            ..own
        },
        EntityFact { own: false, ..own },
        EntityFact {
            is_region: false,
            ..own
        },
        own,
    ];
    assert_eq!(remove_previous_regions(&facts), [0, 4]);
}

#[test]
fn joined_text_uses_balloon_flow_semantics() {
    let bubble = full_mask(0, 0, 1, 1);
    let text = full_mask(0, 0, 1, 1);
    let holds = mask_containment(&bubble, &text, [0.0, 0.0, 1.0, 1.0])
        >= DIALOGUE_MASK_CONTAINMENT_THRESHOLD;
    let link = link_dialogue_region(TextRole::FreeText, &vec![1], &vec![holds]);
    assert_eq!(link, TextLink::FlowsInBubble(0));
    assert_eq!(linked_role(TextRole::FreeText, link), TextRole::Dialogue);
}

#[test]
fn onomatopoeia_is_ocr_text_but_not_balloon_dialogue() {
    let bubble = write_region("bubble", None);
    assert_eq!(bubble.kind, RegionKind::Bubble);
    assert_eq!(bubble.role, None);
    let sound = write_region("onomatopoeia", None);
    assert_eq!(sound.kind, RegionKind::Text);
    assert_eq!(sound.role, Some(TextRole::Onomatopoeia));
    assert_eq!(
        sound.role.unwrap().name(),
        "dev.koharu.text.onomatopoeia"
    );
    let link = link_dialogue_region(TextRole::Onomatopoeia, &vec![1], &vec![true]);
    assert_eq!(link, TextLink::FitsRegion);
    assert_eq!(
        linked_role(TextRole::Onomatopoeia, link),
        TextRole::Onomatopoeia
    );
}

#[test]
fn text_is_put_into_a_group_of_the_program_only() {
    let group = |maker| {
        managed_text_group(Some(GroupFact {
            group: EntityId(4),
            maker,
        }))
    };
    assert_eq!(group(Some(Maker::Program)), Some(EntityId(4)));
    assert_eq!(group(Some(Maker::User)), None);
    assert_eq!(group(None), None);
    assert_eq!(managed_text_group(None), None);
}

#[test]
fn text_flows_in_the_smallest_bubble_that_holds_it() {
    let link = |areas: Vec<u32>, holds: Vec<bool>| {
        link_dialogue_region(TextRole::FreeText, &areas, &holds)
    };
    assert_eq!(
        link(vec![9, 4, 2, 4], vec![true, true, false, true]),
        TextLink::FlowsInBubble(1)
    );
    assert_eq!(link(vec![9], vec![false]), TextLink::FitsRegion);
    assert_eq!(link(vec![], vec![]), TextLink::FitsRegion);
}

#[test]
fn labels_decide_what_is_written() {
    assert_eq!(region_kind("text"), RegionKind::Text);
    assert_eq!(region_kind("panel"), RegionKind::Panel);
    assert_eq!(region_kind("logo"), RegionKind::Unknown);
    assert_eq!(layout_kind("logo"), LayoutKind::Other);
    let plain = write_region("text", None);
    assert_eq!(plain.shape, RegionShape::Bounds);
    assert_eq!(plain.role.map(TextRole::name), Some("dev.koharu.text.free-text"));
    assert_eq!(plain.typography.unwrap().color, None);
    assert!(plain.typography.unwrap().auto_fit);
    assert_eq!(write_region("bubble", None).shape, RegionShape::Outline);
    let panel = write_region("panel", None);
    assert_eq!(panel.shape, RegionShape::Bounds);
    assert!(panel.typography.is_none());
    assert_eq!(TextRole::Dialogue.name(), "dev.koharu.text.dialogue");
}

#[test]
fn detected_typography_preserves_the_measured_outline() {
    let (image, detection) = outlined_text(3, [0, 0, 0], [255, 255, 255]);
    let inferred = infer(&image, &detection);
    let plan = write_region(&detection.label, inferred);
    assert_eq!(plan.shape, RegionShape::TurnedBounds);
    let typography = plan.typography.unwrap();

    assert_eq!(typography.color, Some([0, 0, 0, 255]));
    assert_eq!(typography.stroke_color, Some([255, 255, 255, 255]));
    assert_eq!(typography.stroke_width, Some(3));
}

#[test]
fn nms_removes_lower_scored_overlapping_regions_per_class() {
    let detections = suppress(
        vec![
            detection("text", 0.8, [5.0, 5.0, 105.0, 105.0]),
            detection("bubble", 0.7, [0.0, 0.0, 100.0, 100.0]),
            detection("text", 0.9, [0.0, 0.0, 100.0, 100.0]),
            detection("text", 0.5, [20.0, 20.0, 80.0, 80.0]),
            detection("text", 0.6, [200.0, 0.0, 250.0, 50.0]),
        ],
        0.5,
    );

    let text_scores = detections
        .iter()
        .filter(|detection| detection.label == "text")
        .map(score)
        .collect::<Vec<_>>();
    assert_eq!(text_scores, [0.9, 0.6, 0.5]);
    assert!(detections
        .iter()
        .any(|detection| detection.label == "bubble"));
}

#[test]
fn nms_merges_exact_text_and_onomatopoeia_duplicates() {
    let detections = suppress(
        vec![
            detection("text", 0.7, [10.0, 20.0, 40.0, 60.0]),
            detection("onomatopoeia", 0.9, [10.0, 20.0, 40.0, 60.0]),
            detection("bubble", 0.8, [10.0, 20.0, 40.0, 60.0]),
        ],
        0.5,
    );

    assert_eq!(detections.len(), 2);
    assert!(detections
        .iter()
        .any(|detection| detection.label == "onomatopoeia"));
    assert!(detections
        .iter()
        .any(|detection| detection.label == "bubble"));
}

#[test]
fn nms_preserves_nested_cross_class_text_regions() {
    let detections = suppress(
        vec![
            detection("text", 0.9, [0.0, 0.0, 100.0, 100.0]),
            detection("onomatopoeia", 0.8, [10.0, 10.0, 90.0, 90.0]),
        ],
        0.5,
    );

    assert_eq!(detections.len(), 2);
}

#[test]
fn nms_preserves_nested_same_class_text_regions() {
    let detections = suppress(
        vec![
            detection("text", 0.9, [0.0, 0.0, 100.0, 100.0]),
            detection("text", 0.8, [10.0, 10.0, 90.0, 90.0]),
        ],
        0.5,
    );

    assert_eq!(detections.len(), 2);
}

#[test]
fn nms_considers_equal_scores_from_the_top_right() {
    let detections = suppress(
        vec![
            detection("panel", 0.5, [0.0, 10.0, 1.0, 11.0]),
            detection("text", 0.5, [0.0, 0.0, 1.0, 1.0]),
            detection("bubble", 0.5, [0.0, 0.0, 1.0, 1.0]),
            detection("text", 0.5, [50.0, 0.0, 51.0, 1.0]),
            detection("text", -0.5, [0.0, 20.0, 1.0, 21.0]),
        ],
        0.5,
    );
    let order = detections
        .iter()
        .map(|detection| (detection.label.as_str(), bounds(detection)[0]))
        .collect::<Vec<_>>();
    assert_eq!(
        order,
        [
            ("text", 50.0),
            ("bubble", 0.0),
            ("text", 0.0),
            ("panel", 0.0),
            ("text", 0.0)
        ]
    );
}

#[test]
fn suppressing_again_changes_nothing() {
    let once = suppress(
        vec![
            detection("text", 0.8, [5.0, 5.0, 105.0, 105.0]),
            detection("bubble", 0.7, [0.0, 0.0, 100.0, 100.0]),
            detection("text", 0.9, [0.0, 0.0, 100.0, 100.0]),
            detection("text", 0.5, [20.0, 20.0, 80.0, 80.0]),
            detection("onomatopoeia", 0.5, [20.0, 20.0, 80.0, 80.0]),
            detection("text", 0.6, [200.0, 0.0, 250.0, 50.0]),
        ],
        0.5,
    );
    let seen = |detections: &[LayoutDetection]| {
        detections
            .iter()
            .map(|detection| (detection.label.clone(), score(detection), bounds(detection)))
            .collect::<Vec<_>>()
    };
    let before = seen(&once);
    assert!(before.windows(2).all(|pair| pair[0].1 >= pair[1].1));
    assert_eq!(before.len(), 4);
    assert_eq!(seen(&suppress(once, 0.5)), before);
}

#[test]
fn removing_nested_text_again_changes_nothing() {
    let nested = |x: u32, side: u32| {
        let (start, end) = (x as f32, (x + side) as f32);
        detected(
            "text",
            0.8,
            [start, start, end, end],
            side * side,
            full_mask(x, x, side, side),
        )
    };
    let once = without_nested(vec![nested(0, 8), nested(2, 4), nested(3, 2), nested(20, 3)]);
    let areas = |detections: &[LayoutDetection]| {
        detections
            .iter()
            .map(|detection| detection.area)
            .collect::<Vec<_>>()
    };
    assert_eq!(areas(&once), [64, 9]);
    assert_eq!(areas(&without_nested(once)), [64, 9]);
}

#[test]
fn nested_text_detection_is_removed_from_its_parent_region() {
    let parent = detected("text", 0.8, [0.0, 0.0, 6.0, 6.0], 36, full_mask(0, 0, 6, 6));
    let child = detected(
        "onomatopoeia",
        0.9,
        [2.0, 2.0, 4.0, 4.0],
        4,
        full_mask(2, 2, 2, 2),
    );

    let detections = without_nested(vec![parent, child]);

    assert_eq!(detections.len(), 1);
    assert_eq!(detections[0].label, "text");
    assert_eq!(detections[0].area, 36);
    assert!(detections[0].mask.pixels.iter().all(|pixel| *pixel != 0));
}

#[test]
fn text_detection_contained_by_eighty_percent_is_removed() {
    let parent = detected(
        "text",
        0.8,
        [0.0, 0.0, 10.0, 10.0],
        100,
        full_mask(0, 0, 10, 10),
    );
    let child = detected(
        "onomatopoeia",
        0.9,
        [6.0, 2.0, 11.0, 7.0],
        25,
        full_mask(6, 2, 5, 5),
    );

    let detections = without_nested(vec![parent, child]);

    assert_eq!(detections.len(), 1);
    assert_eq!(detections[0].label, "text");
    assert_eq!(detections[0].area, 100);
}

#[test]
fn overlapping_masks_are_not_nested_from_bounding_boxes_alone() {
    let mut parent_pixels = vec![0; 36];
    for y in 0..6 {
        parent_pixels[y * 6] = u8::MAX;
    }
    parent_pixels[7] = u8::MAX;
    let parent = detected(
        "text",
        0.8,
        [0.0, 0.0, 6.0, 6.0],
        7,
        LayoutMask {
            x: 0,
            y: 0,
            width: 6,
            height: 6,
            pixels: parent_pixels,
        },
    );
    let child = detected(
        "onomatopoeia",
        0.9,
        [1.0, 1.0, 5.0, 5.0],
        16,
        full_mask(1, 1, 4, 4),
    );

    let detections = without_nested(vec![parent, child]);

    assert_eq!(detections.len(), 2);
    assert_eq!(detections[0].area, 7);
    assert!(detections[0].mask.contains(1, 1));
}

#[test]
fn nested_bubbles_do_not_remove_text_detections() {
    let text = detected("text", 0.8, [0.0, 0.0, 4.0, 4.0], 16, full_mask(0, 0, 4, 4));
    let bubble = detected("bubble", 0.9, [1.0, 1.0, 3.0, 3.0], 4, full_mask(1, 1, 2, 2));

    let detections = without_nested(vec![text, bubble]);

    assert_eq!(detections.len(), 2);
    assert_eq!(detections[0].area, 16);
    assert!(detections[0].mask.pixels.iter().all(|pixel| *pixel != 0));
}

#[test]
fn almost_contained_real_page_text_removes_the_inner_detection() {
    let parent = detected(
        "text",
        0.8,
        [394.544, 925.362, 955.329, 1119.854],
        1,
        full_mask(400, 930, 1, 1),
    );
    let child = detected(
        "onomatopoeia",
        0.9,
        [384.731, 923.990, 593.175, 1119.575],
        1,
        full_mask(400, 930, 1, 1),
    );

    let detections = without_nested(vec![parent, child]);

    assert_eq!(detections.len(), 1);
    assert_eq!(detections[0].label, "text");
}

#[test]
fn text_mask_includes_onomatopoeia() {
    let detection = |label: &str, x: u32, value: u8| {
        detected(
            label,
            1.0,
            [x as f32, 0.0, x as f32 + 1.0, 1.0],
            u32::from(value != 0),
            LayoutMask {
                x,
                y: 0,
                width: 1,
                height: 1,
                pixels: vec![value],
            },
        )
    };
    let detections = vec![
        detection("bubble", 0, 0),
        detection("onomatopoeia", 0, 255),
        detection("text", 1, 255),
        detection("onomatopoeia", 3, 255),
    ];

    let mask = mask_for(
        &detections,
        "text",
        ImageSize {
            width: 4,
            height: 1,
        },
    );

    assert_eq!(mask.pixels, [255, 255, 0, 255]);
}

#[test]
fn bubble_membership_uses_detected_ink_instead_of_text_box_corners() {
    let mask = |pixels| LayoutMask {
        x: 0,
        y: 0,
        width: 5,
        height: 5,
        pixels,
    };
    let bubble = mask(vec![
        0, 0, 1, 0, 0, //
        0, 1, 1, 1, 0, //
        1, 1, 1, 1, 1, //
        0, 1, 1, 1, 0, //
        0, 0, 1, 0, 0,
    ]);
    let dialogue = mask(vec![
        0, 0, 0, 0, 0, //
        0, 0, 1, 0, 0, //
        0, 1, 0, 1, 0, //
        0, 0, 1, 0, 0, //
        0, 0, 0, 0, 0,
    ]);
    let crossing = mask(vec![
        0, 0, 0, 0, 0, //
        0, 0, 0, 0, 0, //
        0, 0, 0, 1, 1, //
        0, 0, 0, 1, 1, //
        0, 0, 0, 1, 1,
    ]);

    let bounds = [0.0, 0.0, 5.0, 5.0];
    assert_eq!(mask_containment(&bubble, &dialogue, bounds), 1.0);
    assert!(mask_containment(&bubble, &crossing, bounds) < DIALOGUE_MASK_CONTAINMENT_THRESHOLD);
    let window = Rect {
        left: 0,
        top: 0,
        right: 5,
        bottom: 5,
    };
    assert_eq!(mask_overlap(&bubble, &crossing, window), (3, 6));
}

#[test]
fn mask_containment_accepts_independent_local_extents() {
    let mask = |width: u32, height: u32, count: usize| LayoutMask {
        x: 5,
        y: 5,
        width,
        height,
        pixels: vec![1; count],
    };
    let valid = mask(2, 2, 4);
    let malformed = mask(2, 2, 3);
    let different_size = mask(1, 1, 1);

    let bounds = [5.0, 5.0, 7.0, 7.0];
    assert_eq!(mask_containment(&valid, &malformed, bounds), 0.0);
    assert_eq!(mask_containment(&valid, &different_size, bounds), 1.0);
}

fn gray(mask: &GrayMask) -> GrayImage {
    GrayImage::from_raw(mask.width, mask.height, mask.pixels.clone()).unwrap()
}

fn closed(page: &GrayMask, radius: u8) -> Vec<u8> {
    close(&dilate(&gray(page), Norm::L2, radius), Norm::L2, radius).into_raw()
}

#[test]
fn local_mask_morphology_matches_the_full_page_operation() {
    let size = ImageSize {
        width: 64,
        height: 48,
    };
    let local = |x: u32, y: u32, width: u32, height: u32| {
        detected(
            "text",
            1.0,
            [x as f32, y as f32, (x + width) as f32, (y + height) as f32],
            width * height,
            full_mask(x, y, width, height),
        )
    };
    let detections = vec![
        local(0, 0, 4, 4),
        local(10, 8, 4, 4),
        local(19, 10, 3, 5),
        local(52, 40, 4, 3),
    ];
    let radius = 3;
    let page = mask_for(&detections, "text", size);
    let expected = closed(&page, radius);

    let size = ImageSize {
        width: 64,
        height: 48,
    };
    assert_eq!(
        closed_mask_for(&detections, "text", size, radius).pixels,
        expected
    );
}

#[test]
fn local_mask_morphology_matches_varied_sparse_instances() {
    let size = || ImageSize {
        width: 64,
        height: 48,
    };
    let mut state = 0x7f4a_7c15_u32;
    let mut next = || {
        state = state.wrapping_mul(1_664_525).wrapping_add(1_013_904_223);
        state
    };
    for case in 0..24 {
        let mut detections = Vec::new();
        for _ in 0..8 {
            let width = next() % 8 + 1;
            let height = next() % 8 + 1;
            let x = next() % (64 - width + 1);
            let y = next() % (48 - height + 1);
            let pixels = (0..width * height)
                .map(|_| if next() % 3 == 0 { 0 } else { u8::MAX })
                .collect::<Vec<_>>();
            detections.push(detected(
                "text",
                1.0,
                [x as f32, y as f32, (x + width) as f32, (y + height) as f32],
                pixels.iter().filter(|pixel| **pixel != 0).count() as u32,
                LayoutMask {
                    x,
                    y,
                    width,
                    height,
                    pixels,
                },
            ));
        }
        let radius = (case % 5 + 1) as u8;
        let page = mask_for(&detections, "text", size());
        assert_eq!(
            closed_mask_for(&detections, "text", size(), radius).pixels,
            closed(&page, radius),
            "case {case}, radius {radius}"
        );
    }
}

#[test]
fn masks_are_put_back_outside_of_a_region() {
    let mut mask = GrayMask::new(3, 2);
    for value in &mut mask.pixels {
        *value = 255;
    }
    let mut previous = GrayMask::new(3, 2);
    previous.pixels = vec![1, 2, 3, 4, 5, 6];
    assert!(preserve_mask_outside_region(&mut mask, Some(&previous), 1, 0, 2, 1).is_ok());
    assert_eq!(mask.pixels, [1, 255, 3, 4, 5, 6]);
    assert!(preserve_mask_outside_region(&mut mask, None, 1, 0, 2, 1).is_ok());
    assert_eq!(mask.pixels, [0, 255, 0, 0, 0, 0]);
    let other = GrayMask::new(2, 3);
    assert!(preserve_mask_outside_region(&mut mask, Some(&other), 0, 0, 3, 2).is_err());
    let image = gray(&mask);
    assert_eq!(image.get_pixel(1, 0), &Luma([255]));
}

#[test]
fn layout_order_follows_ltr_panels_then_bubbles_then_their_text() {
    let detections = vec![
        detection("text", 0.63, [20.0, 30.0, 70.0, 70.0]),
        detection("bubble", 0.7, [10.0, 20.0, 80.0, 80.0]),
        detection("panel", 0.9, [100.0, 0.0, 200.0, 200.0]),
        detection("text", 0.62, [130.0, 110.0, 180.0, 150.0]),
        detection("bubble", 0.8, [120.0, 20.0, 190.0, 80.0]),
        detection("panel", 0.9, [0.0, 0.0, 95.0, 200.0]),
        detection("text", 0.61, [130.0, 30.0, 180.0, 70.0]),
        detection("bubble", 0.7, [120.0, 100.0, 190.0, 160.0]),
    ];

    assert_eq!(
        text_scores(&detections, Language::English),
        [0.63, 0.61, 0.62]
    );
}

#[test]
fn layout_order_reads_japanese_columns_right_to_left_then_top_to_bottom() {
    let detections = vec![
        detection("text", 0.4, [20.0, 100.0, 70.0, 140.0]),
        detection("text", 0.2, [120.0, 120.0, 170.0, 160.0]),
        detection("text", 0.3, [20.0, 0.0, 70.0, 40.0]),
        detection("text", 0.1, [120.0, 20.0, 170.0, 60.0]),
    ];

    assert_eq!(
        text_scores(&detections, Language::Japanese),
        [0.1, 0.2, 0.3, 0.4]
    );
}

#[test]
fn layout_order_merges_staggered_overlapping_fragments_in_one_cjk_column() {
    let detections = vec![
        detection("text", 0.1, [20.0, 0.0, 120.0, 40.0]),
        detection("text", 0.2, [100.0, 100.0, 200.0, 140.0]),
    ];

    assert_eq!(text_scores(&detections, Language::Japanese), [0.1, 0.2]);
}

#[test]
fn layout_order_preserves_panel_hierarchy_for_cjk_columns() {
    let detections = vec![
        detection("text", 0.63, [20.0, 30.0, 70.0, 70.0]),
        detection("bubble", 0.7, [10.0, 20.0, 80.0, 80.0]),
        detection("panel", 0.9, [100.0, 0.0, 200.0, 200.0]),
        detection("text", 0.62, [130.0, 110.0, 180.0, 150.0]),
        detection("bubble", 0.8, [120.0, 20.0, 190.0, 80.0]),
        detection("panel", 0.9, [0.0, 0.0, 95.0, 200.0]),
        detection("text", 0.61, [130.0, 30.0, 180.0, 70.0]),
        detection("bubble", 0.7, [120.0, 100.0, 190.0, 160.0]),
    ];

    assert_eq!(
        text_scores(&detections, Language::Japanese),
        [0.61, 0.62, 0.63]
    );
}

#[test]
fn layout_order_reads_top_spanning_panel_before_cjk_columns_below() {
    let detections = vec![
        detection("panel", 0.9, [0.0, 0.0, 200.0, 80.0]),
        detection("text", 0.1, [80.0, 20.0, 120.0, 60.0]),
        detection("panel", 0.9, [0.0, 100.0, 90.0, 200.0]),
        detection("text", 0.3, [20.0, 120.0, 70.0, 160.0]),
        detection("panel", 0.9, [110.0, 100.0, 200.0, 200.0]),
        detection("text", 0.2, [130.0, 120.0, 180.0, 160.0]),
    ];

    assert_eq!(text_scores(&detections, Language::Japanese), [0.1, 0.2, 0.3]);
}

#[test]
fn uncontained_sfx_does_not_change_japanese_t_panel_order() {
    let detections = vec![
        detection("panel", 0.9, [0.0, 0.0, 200.0, 80.0]),
        detection("text", 0.1, [80.0, 20.0, 120.0, 60.0]),
        detection("panel", 0.9, [0.0, 100.0, 90.0, 200.0]),
        detection("text", 0.3, [20.0, 120.0, 70.0, 160.0]),
        detection("panel", 0.9, [110.0, 100.0, 200.0, 200.0]),
        detection("text", 0.2, [130.0, 120.0, 180.0, 160.0]),
        detection("onomatopoeia", 0.4, [210.0, 20.0, 240.0, 60.0]),
    ];

    assert_eq!(text_scores(&detections, Language::Japanese), [0.1, 0.2, 0.3]);
}

#[test]
fn uncontained_sfx_preserves_real_right_left_then_spanning_panel_order() {
    let detections = vec![
        detection("panel", 0.9, [103.53, 0.86, 680.85, 757.97]),
        detection("text", 0.2, [537.63, 430.70, 587.76, 575.53]),
        detection("panel", 0.9, [693.52, 1.93, 1280.82, 757.30]),
        detection("text", 0.1, [1106.99, 70.47, 1189.22, 218.39]),
        detection("panel", 0.9, [4.24, 752.93, 1278.80, 1211.98]),
        detection("text", 0.3, [560.91, 875.24, 613.39, 945.51]),
        detection("onomatopoeia", 0.4, [1300.0, 800.0, 1360.0, 900.0]),
    ];

    assert_eq!(text_scores(&detections, Language::Japanese), [0.1, 0.2, 0.3]);
}

#[test]
fn best_container_prefers_containment_before_area() {
    let items = [
        item(LayoutKind::Panel, [40.0, 0.0, 75.0, 100.0]),
        item(LayoutKind::Panel, [0.0, 0.0, 120.0, 100.0]),
        item(LayoutKind::Text, [40.0, 0.0, 100.0, 100.0]),
    ];
    let fit = |candidate: usize, value: usize| fit(&items, candidate, value);

    assert_eq!(best_container(2, &vec![0, 1], &fit), Some(1));
}

#[test]
fn layout_order_reads_western_rows_top_to_bottom() {
    let detections = vec![
        detection("text", 0.4, [20.0, 100.0, 70.0, 140.0]),
        detection("text", 0.2, [120.0, 120.0, 170.0, 160.0]),
        detection("text", 0.3, [20.0, 0.0, 70.0, 40.0]),
        detection("text", 0.1, [120.0, 20.0, 170.0, 60.0]),
    ];

    assert_eq!(
        text_scores(&detections, Language::English),
        [0.3, 0.1, 0.4, 0.2]
    );
}

#[test]
fn layout_order_merges_containers_and_text_at_each_spatial_level() {
    let detections = vec![
        detection("panel", 0.9, [0.0, 40.0, 200.0, 240.0]),
        detection("bubble", 0.8, [100.0, 120.0, 190.0, 210.0]),
        detection("text", 0.3, [120.0, 140.0, 180.0, 190.0]),
        detection("text", 0.2, [20.0, 60.0, 180.0, 90.0]),
        detection("text", 0.1, [20.0, 0.0, 180.0, 20.0]),
    ];

    assert_eq!(text_scores(&detections, Language::English), [0.1, 0.2, 0.3]);
}

#[test]
fn the_old_order_and_loose_items_do_not_change_the_order_of_panels() {
    let items = vec![
        item(LayoutKind::Panel, [0.0, 0.0, 90.0, 80.0]),
        item(LayoutKind::Text, [210.0, 20.0, 240.0, 60.0]),
        item(LayoutKind::Panel, [110.0, 0.0, 200.0, 80.0]),
        item(LayoutKind::Panel, [0.0, 100.0, 200.0, 180.0]),
        item(LayoutKind::Bubble, [40.0, 70.0, 60.0, 110.0]),
    ];
    for (order, panels) in [
        (ReadingOrder::RowMajor, [0, 2, 3]),
        (ReadingOrder::ColumnMajor, [2, 0, 3]),
    ] {
        let all = arranged(&items, vec![0, 1, 2, 3, 4], order);
        assert_eq!(arranged(&items, vec![4, 2, 3, 0, 1], order), all);
        let among = all
            .into_iter()
            .filter(|&index| items[index].kind == LayoutKind::Panel)
            .collect::<Vec<_>>();
        assert_eq!(among, panels);
        assert_eq!(arranged(&items, vec![3, 2, 0], order), panels);
    }
}

#[test]
fn every_detection_is_read_once() {
    let mut state = 7_u32;
    let mut next = || {
        state = state.wrapping_mul(1_664_525).wrapping_add(1_013_904_223);
        (state >> 16) as f32 % 300.0
    };
    for language in [Language::Japanese, Language::English] {
        let detections = (0..40)
            .map(|index| {
                let (x, y, width, height) = (next(), next(), next() + 1.0, next() + 1.0);
                let label = ["panel", "bubble", "text", "onomatopoeia", "other"][index % 5];
                detection(label, 0.5, [x, y, x + width, y + height])
            })
            .collect::<Vec<_>>();
        let mut order = layout_order(&detections, language);
        order.sort_unstable();
        assert_eq!(order, (0..40).collect::<Vec<_>>());
    }
}

#[test]
fn new_text_is_placed_before_the_text_that_is_read_next() {
    let place = |bounds: [f64; 4]| {
        let item = item(LayoutKind::Text, bounds);
        (item.bounds, item.center)
    };
    let regions = vec![
        RegionFact {
            kind: LayoutKind::Panel,
            place: Some(place([0.0, 0.0, 400.0, 400.0])),
        },
        RegionFact {
            kind: LayoutKind::Other,
            place: Some(place([0.0, 0.0, 1.0, 1.0])),
        },
        RegionFact {
            kind: LayoutKind::Bubble,
            place: None,
        },
    ];
    let layers = vec![
        LayerFact {
            layer: EntityId(1),
            place: Some(place([300.0, 10.0, 340.0, 50.0])),
        },
        LayerFact {
            layer: EntityId(2),
            place: None,
        },
        LayerFact {
            layer: EntityId(3),
            place: Some(place([20.0, 10.0, 60.0, 50.0])),
        },
    ];
    let (items, owners) = collect_items(&regions, &layers, place([160.0, 10.0, 200.0, 50.0]));
    assert_eq!(items.len(), 4);
    assert_eq!(owners, [None, Some(EntityId(1)), Some(EntityId(3)), None]);
    let order = read(&items, Language::Japanese);
    assert_eq!(order, [0, 1, 3, 2]);
    assert_eq!(place_layer(&items, &owners, &order, 3), Some(EntityId(3)));
    let order = read(&items, Language::English);
    assert_eq!(order, [0, 2, 3, 1]);
    assert_eq!(place_layer(&items, &owners, &order, 3), Some(EntityId(1)));
    assert_eq!(place_layer(&items, &owners, &vec![0, 1, 2, 3], 3), None);
}

#[test]
fn typography_comes_from_horizontal_text_mask() {
    let (image, detection) = masked_text(52.0, 12.0, 12.0, [24, 80, 160]);

    let inferred = infer(&image, &detection).unwrap();

    assert_eq!(inferred.color, [24, 80, 160]);
    assert_eq!(inferred.stroke_color, None);
    assert_eq!(inferred.stroke_width, None);
}

#[test]
fn antialiased_dark_text_uses_the_high_contrast_core() {
    let (mut image, detection) = masked_text(52.0, 12.0, 0.0, [96, 94, 92]);
    for (index, &mask) in detection.mask.pixels.iter().enumerate() {
        if mask != 0 && index % 3 == 0 {
            let x = index as u32 % image.width;
            let y = index as u32 / image.width;
            put(&mut image, x, y, [8, 9, 7]);
        }
    }

    let inferred = infer(&image, &detection).unwrap();

    assert_eq!(inferred.color, [0, 0, 0]);
}

#[test]
fn text_colors_snap_only_at_luminance_extremes() {
    assert_eq!(normalize_text_color([20, 31, 24]), [0, 0, 0]);
    assert_eq!(normalize_text_color([230, 240, 250]), [255, 255, 255]);
    assert_eq!(normalize_text_color([255, 0, 0]), [0, 0, 0]);
    assert_eq!(normalize_text_color([0, 255, 0]), [0, 255, 0]);
    assert_eq!(normalize_text_color([20, 115, 235]), [20, 115, 235]);
    assert_eq!(normalize_text_color([40, 70, 40]), [0, 0, 0]);
}

#[test]
fn outlined_text_uses_the_deep_fill_and_measures_the_border() {
    for stroke_width in [2, 3, 5] {
        let (image, detection) = outlined_text(stroke_width, [0, 0, 0], [255, 255, 255]);

        let inferred = infer(&image, &detection).unwrap();

        assert_eq!(inferred.color, [0, 0, 0]);
        assert_eq!(inferred.stroke_color, Some([255, 255, 255]));
        assert_eq!(inferred.stroke_width, Some(stroke_width as u8));
    }
}

#[test]
fn outlined_text_roles_do_not_flip_with_inverse_luminance() {
    let (image, detection) = outlined_text(3, [255, 255, 255], [0, 0, 0]);

    let inferred = infer(&image, &detection).unwrap();

    assert_eq!(inferred.color, [255, 255, 255]);
    assert_eq!(inferred.stroke_color, Some([0, 0, 0]));
    assert_eq!(inferred.stroke_width, Some(3));
}

#[test]
fn glyph_holes_matching_the_background_do_not_invert_the_paint() {
    let (image, detection) =
        outlined_text_on_background(3, [255, 255, 255], [0, 0, 0], [255, 255, 255]);

    let inferred = infer(&image, &detection).unwrap();

    assert_eq!(inferred.color, [0, 0, 0]);
    assert_eq!(inferred.stroke_color, None);
    assert_eq!(inferred.stroke_width, None);
}

#[test]
fn outlined_text_is_separated_from_matching_dark_artwork() {
    let (image, detection) = outlined_text_on_textured_background();

    let inferred = infer(&image, &detection).unwrap();

    assert_eq!(inferred.color, [0, 0, 0]);
    assert_eq!(inferred.stroke_color, Some([255, 255, 255]));
    assert_eq!(inferred.stroke_width, Some(3));
}

#[test]
fn colors_in_the_same_luminance_class_do_not_create_a_border() {
    let (image, detection) = outlined_text(3, [0, 0, 0], [48, 48, 48]);

    let inferred = infer(&image, &detection).unwrap();

    assert_eq!(inferred.color, [0, 0, 0]);
    assert_eq!(inferred.stroke_color, None);
    assert_eq!(inferred.stroke_width, None);
}

#[test]
fn wide_antialias_bands_do_not_create_borders() {
    for (fill, antialias, background) in [
        ([20, 115, 235], [133, 180, 240], [245, 245, 245]),
        ([0, 0, 0], [96, 96, 96], [245, 245, 245]),
    ] {
        let (image, detection) = outlined_text_on_background(4, fill, antialias, background);

        let inferred = infer(&image, &detection).unwrap();

        assert_eq!(inferred.color, fill);
        assert_eq!(inferred.stroke_color, None);
        assert_eq!(inferred.stroke_width, None);
    }
}

#[test]
fn text_region_background_is_not_mistaken_for_the_fill() {
    for (fill, background, expected) in [
        ([24, 40, 80], [225, 130, 175], [0, 0, 0]),
        ([220, 240, 255], [16, 24, 88], [255, 255, 255]),
        ([20, 115, 235], [245, 245, 245], [20, 115, 235]),
    ] {
        let (image, detection) = region_masked_text(fill, background);

        let inferred = infer(&image, &detection).unwrap();

        assert_eq!(inferred.color, expected);
        assert_eq!(inferred.stroke_color, None);
        assert_eq!(inferred.stroke_width, None);
    }
}

#[test]
fn an_empty_mask_gives_no_paint() {
    let (image, mut detection) = masked_text(52.0, 12.0, 0.0, [0, 0, 0]);
    for value in &mut detection.mask.pixels {
        *value = 0;
    }
    assert!(infer(&image, &detection).is_none());
}

#[test]
fn color_palette_is_bounded_independently_of_crop_area() {
    let pixels = (0..65_536_u32)
        .map(|index| MaskPixel {
            x: 0,
            y: 0,
            color: [
                index as u8,
                (index >> 8) as u8,
                index.wrapping_mul(31) as u8,
            ],
            inside_mask: true,
        })
        .collect::<Vec<_>>();

    assert!(color_palette(&pixels).len() <= 16 * 16 * 16);
}

use refrain::adapters::text::{HapText, TextAdapter, TextStyle};
use refrain::schedule::{collect_haps, schedule, Hap};
use refrain::{parse, Pattern, Refrain};

fn cycles(d: &String) -> f64 {
    match d.as_str() {
        "w" | "whole" => 1.0,
        "h" | "half" => 0.5,
        "q" | "quarter" => 0.25,
        "e" | "eighth" => 0.125,
        "s" | "sixteenth" => 0.0625,
        s => s.parse::<f64>().unwrap_or(0.25),
    }
}

fn haps_of(r: &Refrain) -> Vec<Hap<f64>> {
    collect_haps(r, 0.0, &cycles, &|a: f64, b: f64| a + b, &|a: f64, b: f64| a - b)
}

fn schedule_f64(p: &Pattern, t0: f64) -> (Vec<Hap<f64>>, f64) {
    schedule(p, t0, 0.0, &cycles, &|a: f64, b: f64| a + b, &|a: f64, b: f64| a - b)
}

fn text_of(a: &TextAdapter, r: &Refrain) -> String {
    let haps: Vec<HapText> = haps_of(r)
        .iter()
        .map(|h| HapText {
            start: format!("{:.4}", h.start),
            duration: format!("{:.4}", h.end - h.start),
            pitch: h.pitch.clone(),
            value: h.value.clone(),
        })
        .collect();
    a.render_text(&r.name, &haps)
}

fn first_stage(src: &str) -> Pattern {
    parse(src).unwrap().territorialize.unwrap()
}

#[test]
fn schedule_for_loop_four_quarters_spans_one_cycle() {
    let r = parse("(refrain a (territorialize (loop 4 (note C4 q))))").unwrap();
    let haps = haps_of(&r);
    assert_eq!(haps.len(), 4);
    let total: f64 = haps.last().unwrap().end - haps.first().unwrap().start;
    assert_eq!(total, 1.0);
}

#[test]
fn prose_contains_pitch_lines() {
    let r = parse("(refrain a (territorialize (loop 4 (note C4 q))))").unwrap();
    let s = text_of(&TextAdapter::new(TextStyle::Prose), &r);
    assert!(s.contains("# Refrain: a"));
    assert_eq!(s.matches("C4").count(), 4);
}

#[test]
fn bullets_uses_dash_prefix() {
    let r = parse("(refrain b (territorialize (note G4 e)))").unwrap();
    let s = text_of(&TextAdapter::new(TextStyle::Bullets), &r);
    assert!(s.contains("- t="));
    assert!(s.contains("G4"));
}

#[test]
fn deterministic_for_same_seed() {
    let r = parse("(refrain c (territorialize (loop 4 (note C4 q))))").unwrap();
    let a = TextAdapter::with_seed(TextStyle::Prose, 42);
    let s1 = text_of(&a, &r);
    let s2 = text_of(&a, &r);
    assert_eq!(s1, s2);
}

#[test]
fn different_seeds_diverge() {
    let r = parse("(refrain c (territorialize (loop 4 (note C4 q))))").unwrap();
    let a = TextAdapter::with_seed(TextStyle::Prose, 1);
    let b = TextAdapter::with_seed(TextStyle::Prose, 2);
    assert_ne!(text_of(&a, &r), text_of(&b, &r));
}

#[test]
fn empty_refrain_emits_just_header() {
    let r = parse("(refrain e)").unwrap();
    let s = text_of(&TextAdapter::new(TextStyle::Prose), &r);
    assert_eq!(s, "# Refrain: e\n");
}

#[test]
fn note_payload_and_span() {
    let (haps, span) = schedule_f64(&first_stage("(refrain a (territorialize (note C4 h)))"), 1.0);
    assert_eq!(haps.len(), 1);
    assert_eq!(haps[0].start, 1.0);
    assert_eq!(haps[0].end, 1.5);
    assert_eq!(haps[0].pitch.as_deref(), Some("C4"));
    assert_eq!(haps[0].value, "note:C4:h");
    assert_eq!(span, 0.5);
}

#[test]
fn sequence_plays_items_one_after_another() {
    let p = first_stage("(refrain a (territorialize (note C4 q) (note D4 h) (note E4 0.125)))");
    let (haps, span) = schedule_f64(&p, 0.0);
    let starts: Vec<f64> = haps.iter().map(|h| h.start).collect();
    let values: Vec<&str> = haps.iter().map(|h| h.value.as_str()).collect();
    assert_eq!(starts, vec![0.0, 0.25, 0.75]);
    assert_eq!(values, vec!["note:C4:q", "note:D4:h", "note:E4:0.125"]);
    assert_eq!(span, 0.875);
}

#[test]
fn marks_are_instantaneous() {
    let r = parse("(refrain a (deterritorialize (dy/dx x t)) (reterritorialize (quotient ~a ~b ~c)))")
        .unwrap();
    let haps = haps_of(&r);
    assert_eq!(haps.len(), 2);
    assert_eq!(haps[0].value, "diff:x:t");
    assert_eq!(haps[1].value, "quotient:~a,~b,~c");
    assert!(haps.iter().all(|h| h.start == 0.0 && h.end == 0.0 && h.pitch.is_none()));
}

#[test]
fn call_hap_follows_and_spans_its_arguments() {
    let p = first_stage("(refrain a (territorialize (rest (note C4 q) (note D4 q) x)))");
    let (haps, span) = schedule_f64(&p, 2.0);
    let values: Vec<&str> = haps.iter().map(|h| h.value.as_str()).collect();
    assert_eq!(values, vec!["note:C4:q", "note:D4:q", "sym:x", "call:rest"]);
    assert_eq!(haps[2].start, 2.5);
    assert_eq!((haps[3].start, haps[3].end), (2.0, 2.5));
    assert_eq!(span, 0.5);
}

#[test]
fn stages_follow_one_another() {
    let r = parse("(refrain a (territorialize (note C4 w)) (reterritorialize (note D4 q)))").unwrap();
    let haps = haps_of(&r);
    assert_eq!((haps[1].start, haps[1].end), (1.0, 1.25));
}

#[test]
fn loop_zero_schedules_nothing() {
    let (haps, span) = schedule_f64(&first_stage("(refrain a (territorialize (loop 0 (note C4 q))))"), 3.0);
    assert!(haps.is_empty());
    assert_eq!(span, 0.0);
}

#[test]
fn rewrites_keep_the_schedule() {
    let once = first_stage("(refrain a (territorialize (loop 1 (note C4 q))))");
    let bare = first_stage("(refrain a (territorialize (note C4 q)))");
    let values = |p: &Pattern| -> Vec<String> {
        schedule_f64(p, 0.0).0.into_iter().map(|h| h.value).collect()
    };
    assert_eq!(values(&once), values(&bare));
    let single = Pattern::Sequence(vec![first_stage("(refrain a (territorialize (dy/dx x t)))")]);
    assert_eq!(values(&single), vec!["diff:x:t".to_string()]);
}

#[test]
fn loop_repeats_body_haps_in_order() {
    let p = first_stage("(refrain a (territorialize (loop 3 (note C4 q) )))");
    let (haps, _) = schedule_f64(&p, 0.0);
    assert_eq!(haps.len(), 3);
    let p2 = first_stage("(refrain a (territorialize (loop 2 (rest (note C4 q) x))))");
    let values: Vec<String> = schedule_f64(&p2, 0.0).0.into_iter().map(|h| h.value).collect();
    assert_eq!(values, vec!["note:C4:q", "sym:x", "call:rest", "note:C4:q", "sym:x", "call:rest"]);
}

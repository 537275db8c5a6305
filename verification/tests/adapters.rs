//! Tests of the media-independent parts of the adapters.

use std::collections::hash_map::DefaultHasher;
use std::hash::{Hash, Hasher};

use refrain::adapters::audio::{AudioAdapter, AudioFormat};
use refrain::adapters::text::{lcg, HapText, TextAdapter, TextStyle};
use refrain::adapters::visual::{key_color, Span, VisualAdapter};
use refrain::adapters::{AdapterCaps, AdapterErr, EmitCtx, ExtractedRefrain};
use refrain::StageKind;

#[test]
fn name_reflects_format() {
    assert_eq!(AudioAdapter::new(AudioFormat::StrudelJson).name(), "audio.strudel-json");
    assert_eq!(AudioAdapter::new(AudioFormat::Osc).name(), "audio.osc");
}

#[test]
fn names_distinguish_styles() {
    assert_eq!(TextAdapter::new(TextStyle::Prose).name(), "text.prose");
    assert_eq!(TextAdapter::new(TextStyle::Bullets).name(), "text.bullets");
}

#[test]
fn capabilities_by_adapter() {
    assert!(AudioAdapter::new(AudioFormat::Osc).capabilities().realtime);
    assert!(!AudioAdapter::new(AudioFormat::StrudelJson).capabilities().realtime);
    assert_eq!(TextAdapter::new(TextStyle::Prose).capabilities(), AdapterCaps::default());
    assert_eq!(VisualAdapter::new().capabilities(), AdapterCaps::default());
    assert_eq!(VisualAdapter::new().name(), "visual.png");
    let v = VisualAdapter::default();
    assert_eq!((v.width, v.height), (256, 256));
    let v = VisualAdapter::with_size(16, 9);
    assert_eq!((v.width, v.height), (16, 9));
    let t = TextAdapter::with_seed(TextStyle::Bullets, 42);
    assert_eq!((t.style, t.seed), (TextStyle::Bullets, 42));
}

#[test]
fn lcg_steps_as_documented() {
    let mut s = 0u64;
    let r = lcg(&mut s);
    assert_eq!(r, 1442695040888963407);
    assert_eq!(s, r);
    let r2 = lcg(&mut s);
    assert_eq!(r2, 1442695040888963407u64.wrapping_mul(6364136223846793005).wrapping_add(1442695040888963407));
}

fn note_hap(start: &str, dur: &str, pitch: &str) -> HapText {
    HapText {
        start: start.to_string(),
        duration: dur.to_string(),
        pitch: Some(pitch.to_string()),
        value: format!("note:{}:q", pitch),
    }
}

fn four_quarter_notes() -> Vec<HapText> {
    vec![
        note_hap("0.0000", "0.2500", "C4"),
        note_hap("0.2500", "0.2500", "C4"),
        note_hap("0.5000", "0.2500", "C4"),
        note_hap("0.7500", "0.2500", "C4"),
    ]
}

#[test]
fn prose_contains_pitch_lines_for_given_schedule() {
    let a = TextAdapter::new(TextStyle::Prose);
    let s = a.render_text("a", &four_quarter_notes());
    assert!(s.starts_with("# Refrain: a\n"));
    assert_eq!(s.matches("C4").count(), 4);
    assert_eq!(s.lines().count(), 5);
    assert!(s.lines().nth(1).unwrap().starts_with("At cycle 0.0000, the voice "));
}

#[test]
fn prose_line_matches_the_seeded_choice() {
    // Seed 0: the state starts at the salt; the first two draws pick the
    // verb and the closing phrase of the first line.
    let mut st = 0x9E3779B97F4A7C15u64;
    let verbs = ["sings", "chants", "intones", "voices", "speaks"];
    let suffixes = [".", " in measured time.", " over the refrain.", " quietly."];
    let v = verbs[(lcg(&mut st) as usize) % 5];
    let x = suffixes[(lcg(&mut st) as usize) % 4];
    let s = TextAdapter::new(TextStyle::Prose).render_text("a", &vec![note_hap("0.0000", "0.2500", "C4")]);
    assert_eq!(
        s,
        format!("# Refrain: a\nAt cycle 0.0000, the voice {} C4 for 0.2500 cycles{}\n", v, x)
    );
}

#[test]
fn bullets_uses_dash_prefix_for_given_schedule() {
    let a = TextAdapter::new(TextStyle::Bullets);
    let haps = vec![
        note_hap("0.0000", "0.1250", "G4"),
        HapText {
            start: "0.1250".to_string(),
            duration: "0.0000".to_string(),
            pitch: None,
            value: "diff:x:t".to_string(),
        },
    ];
    let s = a.render_text("b", &haps);
    assert!(s.contains("- t=0.0000 "));
    assert!(s.contains("G4 dur=0.1250"));
    assert!(s.ends_with("- t=0.1250 mark=diff:x:t\n"));
}

#[test]
fn text_is_deterministic_and_seed_dependent() {
    let haps = four_quarter_notes();
    let a = TextAdapter::with_seed(TextStyle::Prose, 42);
    assert_eq!(a.render_text("c", &haps), a.render_text("c", &haps));
    let b1 = TextAdapter::with_seed(TextStyle::Prose, 1).render_text("c", &haps);
    let b2 = TextAdapter::with_seed(TextStyle::Prose, 2).render_text("c", &haps);
    assert_ne!(b1, b2);
}

#[test]
fn empty_schedule_emits_just_header() {
    let s = TextAdapter::new(TextStyle::Prose).render_text("e", &vec![]);
    assert_eq!(s, "# Refrain: e\n");
}

fn std_key_color(key: &str) -> (u8, u8, u8) {
    const PALETTE: [(u8, u8, u8); 24] = [
        (220, 20, 60), (255, 99, 71), (255, 140, 0), (255, 215, 0), (154, 205, 50),
        (60, 179, 113), (0, 139, 139), (70, 130, 180), (65, 105, 225), (123, 104, 238),
        (186, 85, 211), (218, 112, 214), (255, 105, 180), (205, 92, 92), (244, 164, 96),
        (189, 183, 107), (85, 107, 47), (46, 139, 87), (32, 178, 170), (25, 25, 112),
        (72, 61, 139), (128, 0, 128), (199, 21, 133), (128, 128, 128),
    ];
    let mut h = DefaultHasher::new();
    key.hash(&mut h);
    PALETTE[(h.finish() % 24) as usize]
}

#[test]
fn key_color_agrees_with_std_hashing() {
    for key in ["C4", "G4", "", "note:C4:q", "quotient:~a,~b", "é♯"] {
        assert_eq!(key_color(key), std_key_color(key));
    }
}

const PNG_MAGIC: [u8; 8] = [137, 80, 78, 71, 13, 10, 26, 10];

fn span(stage: StageKind, x0: u32, x1: u32, key: &str) -> Span {
    Span { stage, x0, x1, key: key.to_string() }
}

#[test]
fn render_starts_with_png_signature() {
    let v = VisualAdapter::new();
    let spans = vec![span(StageKind::Territorialize, 0, 63, "C4"), span(StageKind::Territorialize, 63, 127, "C4")];
    let bytes = v.render(&spans).unwrap();
    assert_eq!(&bytes[0..8], &PNG_MAGIC);
}

#[test]
fn render_empty_canvas() {
    let bytes = VisualAdapter::new().render(&vec![]).unwrap();
    assert_eq!(&bytes[0..8], &PNG_MAGIC);
    assert!(bytes.len() > 8 && bytes.len() < 256 * 256 * 3);
}

#[test]
fn render_is_deterministic_and_content_dependent() {
    let v = VisualAdapter::with_size(64, 48);
    let s1 = vec![span(StageKind::Territorialize, 0, 20, "C4")];
    let s2 = vec![span(StageKind::Territorialize, 0, 20, "G4")];
    let b1 = v.render(&s1).unwrap();
    assert_eq!(b1, v.render(&s1).unwrap());
    assert_ne!(b1, v.render(&s2).unwrap());
    assert!(b1.len() > 50 && b1.len() < 10_000);
}

#[test]
fn render_custom_size_gives_smaller_png() {
    let s = vec![span(StageKind::Territorialize, 0, 300, "C4")];
    let small = VisualAdapter::with_size(16, 16).render(&s).unwrap();
    let big = VisualAdapter::with_size(256, 256).render(&s).unwrap();
    assert!(small.len() < big.len());
}

#[test]
fn zero_sized_canvas_is_an_encoding_error() {
    assert!(matches!(VisualAdapter::with_size(0, 10).render(&vec![]), Err(AdapterErr::Encoding(_))));
    assert!(matches!(VisualAdapter::with_size(10, 0).render(&vec![]), Err(AdapterErr::Encoding(_))));
}

#[test]
fn emit_context_defaults_to_nothing() {
    let c = EmitCtx::default();
    assert_eq!(c.sample_rate, None);
    assert_eq!(c.frame_count, None);
    let r = refrain::parse("(refrain a)").unwrap();
    let ex = ExtractedRefrain { refrain: &r };
    assert_eq!(ex.refrain.name, "a");
}

//! Text adapter: deterministic natural-language rendering of a schedule.
//!
//! Each scheduled event becomes one line. A small seeded linear congruential
//! generator picks the filler words (the verb and the closing phrase) so that
//! the same refrain and seed always give the same text.

use vstd::prelude::*;
use vstd::string::StringExecFns;
use vstd::wrapping::u64_specs;

use super::AdapterCaps;

verus! {

/// The style of the rendered text.
#[derive(Debug, Clone, Copy, PartialEq, Eq)]
pub enum TextStyle {
    Prose,
    Bullets,
}

/// The text adapter.
pub struct TextAdapter {
    pub style: TextStyle,
    pub seed: u64,
}

/// One scheduled event, with its cycle values already written with four
/// decimals.
pub struct HapText {
    /// Start of the event, in cycles.
    pub start: String,
    /// Duration of the event, in cycles.
    pub duration: String,
    /// Pitch of a note.
    pub pitch: Option<String>,
    /// Payload of the event.
    pub value: String,
}

/// Model of a `HapText`.
pub struct SpecHapText {
    pub start: Seq<char>,
    pub duration: Seq<char>,
    pub pitch: Option<Seq<char>>,
    pub value: Seq<char>,
}

impl View for HapText {
    type V = SpecHapText;

    open spec fn view(&self) -> SpecHapText {
        SpecHapText {
            start: self.start@,
            duration: self.duration@,
            pitch: match self.pitch {
                Some(p) => Some(p@),
                None => None,
            },
            value: self.value@,
        }
    }
}

pub open spec fn haps_model(hs: Seq<HapText>) -> Seq<SpecHapText> {
    hs.map_values(|h: HapText| h@)
}

/// One step of the generator.
pub open spec fn lcg_step(state: u64) -> u64 {
    u64_specs::wrapping_add(u64_specs::wrapping_mul(state, 6364136223846793005), 1442695040888963407)
}

/// Advances the generator and returns its new state.
pub fn lcg(state: &mut u64) -> (r: u64)
    ensures
        r == lcg_step(*old(state)),
        *final(state) == r,
{
    *state = state.wrapping_mul(6364136223846793005).wrapping_add(1442695040888963407);
    *state
}

/// The generator state for a seed: the seed with a fixed salt added.
pub open spec fn salted(seed: u64) -> u64 {
    u64_specs::wrapping_add(seed, 0x9E3779B97F4A7C15)
}

/// The verbs, by index.
pub open spec fn verb_word(i: usize) -> Seq<char> {
    if i == 0 {
        "sings"@
    } else if i == 1 {
        "chants"@
    } else if i == 2 {
        "intones"@
    } else if i == 3 {
        "voices"@
    } else {
        "speaks"@
    }
}

/// The closing phrases, by index.
pub open spec fn suffix_word(i: usize) -> Seq<char> {
    if i == 0 {
        "."@
    } else if i == 1 {
        " in measured time."@
    } else if i == 2 {
        " over the refrain."@
    } else {
        " quietly."@
    }
}

fn verb(i: usize) -> (s: &'static str)
    ensures
        s@ == verb_word(i),
{
    if i == 0 {
        "sings"
    } else if i == 1 {
        "chants"
    } else if i == 2 {
        "intones"
    } else if i == 3 {
        "voices"
    } else {
        "speaks"
    }
}

fn suffix(i: usize) -> (s: &'static str)
    ensures
        s@ == suffix_word(i),
{
    if i == 0 {
        "."
    } else if i == 1 {
        " in measured time."
    } else if i == 2 {
        " over the refrain."
    } else {
        " quietly."
    }
}

/// The line of one event, given its verb and closing phrase.
pub open spec fn line_of(h: SpecHapText, v: Seq<char>, x: Seq<char>, style: TextStyle) -> Seq<char> {
    match style {
        TextStyle::Prose => match h.pitch {
            Some(p) => "At cycle "@ + h.start + ", the voice "@ + v + " "@ + p + " for "@ + h.duration
                + " cycles"@ + x,
            None => "At cycle "@ + h.start + ", a structural mark: "@ + h.value + x,
        },
        TextStyle::Bullets => match h.pitch {
            Some(p) => "- t="@ + h.start + " "@ + v + " "@ + p + " dur="@ + h.duration,
            None => "- t="@ + h.start + " mark="@ + h.value,
        },
    }
}

/// The lines of a list of events, each followed by a line feed, with the
/// generator in state `state` before the first: each line draws the verb
/// and then the closing phrase.
pub open spec fn lines_of(hs: Seq<SpecHapText>, state: u64, style: TextStyle) -> Seq<char>
    decreases hs.len(),
{
    if hs.len() == 0 {
        Seq::empty()
    } else {
        let s1 = lcg_step(state);
        let s2 = lcg_step(s1);
        line_of(hs[0], verb_word((s1 as usize) % 5), suffix_word((s2 as usize) % 4), style) + "\n"@
            + lines_of(hs.drop_first(), s2, style)
    }
}

/// The generator state after drawing for `n` lines.
pub open spec fn state_after(state: u64, n: nat) -> u64
    decreases n,
{
    if n == 0 {
        state
    } else {
        state_after(lcg_step(lcg_step(state)), (n - 1) as nat)
    }
}

/// The whole text: a header naming the refrain, then one line per event.
pub open spec fn text_of(style: TextStyle, seed: u64, name: Seq<char>, hs: Seq<SpecHapText>) -> Seq<
    char,
> {
    "# Refrain: "@ + name + "\n"@ + lines_of(hs, salted(seed), style)
}

proof fn lemma_lines_split(hs: Seq<SpecHapText>, state: u64, style: TextStyle, i: nat)
    requires
        i < hs.len(),
    ensures
        lines_of(hs.skip(i as int), state, style) == ({
            let s1 = lcg_step(state);
            let s2 = lcg_step(s1);
            line_of(hs[i as int], verb_word((s1 as usize) % 5), suffix_word((s2 as usize) % 4), style)
                + "\n"@ + lines_of(hs.skip((i + 1) as int), s2, style)
        }),
{
    assert(hs.skip(i as int)[0] == hs[i as int]);
    assert(hs.skip(i as int).drop_first() =~= hs.skip((i + 1) as int));
}

/// The lines before the one of event `i` form some prefix, after which the
/// lines of the events from `i` on follow, drawn from some generator state.
proof fn lemma_lines_prefix(hs: Seq<SpecHapText>, state: u64, style: TextStyle, i: nat)
    requires
        i <= hs.len(),
    ensures
        exists|pre: Seq<char>, st: u64|
            #![trigger pre + lines_of(hs.skip(i as int), st, style)]
            lines_of(hs, state, style) == pre + lines_of(hs.skip(i as int), st, style),
    decreases i,
{
    if i == 0 {
        assert(hs.skip(0) =~= hs);
        assert(lines_of(hs, state, style) == Seq::<char>::empty() + lines_of(hs.skip(0), state, style));
    } else {
        lemma_lines_prefix(hs, state, style, (i - 1) as nat);
        let (pre, st) = choose|pre: Seq<char>, st: u64|
            #![trigger pre + lines_of(hs.skip((i - 1) as nat as int), st, style)]
            lines_of(hs, state, style) == pre + lines_of(hs.skip((i - 1) as nat as int), st, style);
        lemma_lines_split(hs, st, style, (i - 1) as nat);
        let s1 = lcg_step(st);
        let s2 = lcg_step(s1);
        let line = line_of(hs[i - 1], verb_word((s1 as usize) % 5), suffix_word((s2 as usize) % 4), style);
        assert(lines_of(hs, state, style) == (pre + line + "\n"@) + lines_of(hs.skip(i as int), s2, style));
    }
}

/// The text shows every event: after the header that names the refrain,
/// the text holds, for each event, its start and, for a mark (an event
/// without pitch), its payload, and for a note its pitch and duration, in
/// the form of the style. For prose a mark reads
/// `At cycle <start>, a structural mark: <value>` and a note
/// `At cycle <start>, the voice <verb> <pitch> for <duration> cycles`; for
/// bullets `- t=<start> mark=<value>` and `- t=<start> <verb> <pitch> dur=<duration>`.
pub proof fn law_text_shows_each_event(style: TextStyle, seed: u64, name: Seq<char>, hs: Seq<SpecHapText>, i: int)
    requires
        0 <= i < hs.len(),
    ensures
        text_of(style, seed, name, hs).take(("# Refrain: "@ + name + "\n"@).len() as int) == "# Refrain: "@ + name
            + "\n"@,
        hs[i].pitch is None && style == TextStyle::Prose ==> exists|a: Seq<char>, b: Seq<char>|
            text_of(style, seed, name, hs) == a + ("At cycle "@ + hs[i].start + ", a structural mark: "@ + hs[i].value)
                + b,
        hs[i].pitch is None && style == TextStyle::Bullets ==> exists|a: Seq<char>, b: Seq<char>|
            text_of(style, seed, name, hs) == a + ("- t="@ + hs[i].start + " mark="@ + hs[i].value) + b,
        hs[i].pitch is Some && style == TextStyle::Prose ==> exists|a: Seq<char>, v: Seq<char>, b: Seq<char>|
            text_of(style, seed, name, hs) == a + ("At cycle "@ + hs[i].start + ", the voice "@ + v + " "@
                + hs[i].pitch->0 + " for "@ + hs[i].duration + " cycles"@) + b,
        hs[i].pitch is Some && style == TextStyle::Bullets ==> exists|a: Seq<char>, v: Seq<char>, b: Seq<char>|
            text_of(style, seed, name, hs) == a + ("- t="@ + hs[i].start + " "@ + v + " "@ + hs[i].pitch->0
                + " dur="@ + hs[i].duration) + b,
{
    let head = "# Refrain: "@ + name + "\n"@;
    let t = text_of(style, seed, name, hs);
    assert(t.take(head.len() as int) =~= head);
    lemma_lines_prefix(hs, salted(seed), style, i as nat);
    let (pre, st) = choose|pre: Seq<char>, st: u64|
        #![trigger pre + lines_of(hs.skip(i as nat as int), st, style)]
        lines_of(hs, salted(seed), style) == pre + lines_of(hs.skip(i as nat as int), st, style);
    lemma_lines_split(hs, st, style, i as nat);
    let s1 = lcg_step(st);
    let s2 = lcg_step(s1);
    let v = verb_word((s1 as usize) % 5);
    let x = suffix_word((s2 as usize) % 4);
    let a = head + pre;
    let rest = "\n"@ + lines_of(hs.skip(i + 1), s2, style);
    let h = hs[i];
    let line = line_of(h, v, x, style);
    assert(lines_of(hs.skip(i), st, style) == line + rest);
    assert(t =~= a + line + rest);
    lemma_line_shape(h, v, x, style, a, rest);
}

/// The shape of one line inside the text, for `law_text_shows_each_event`.
proof fn lemma_line_shape(h: SpecHapText, v: Seq<char>, x: Seq<char>, style: TextStyle, a: Seq<char>, rest: Seq<char>)
    ensures
        h.pitch is None && style == TextStyle::Prose ==> a + line_of(h, v, x, style) + rest == a + ("At cycle "@
            + h.start + ", a structural mark: "@ + h.value) + (x + rest),
        h.pitch is None && style == TextStyle::Bullets ==> a + line_of(h, v, x, style) + rest == a + ("- t="@
            + h.start + " mark="@ + h.value) + rest,
        h.pitch is Some && style == TextStyle::Prose ==> a + line_of(h, v, x, style) + rest == a + ("At cycle "@
            + h.start + ", the voice "@ + v + " "@ + h.pitch->0 + " for "@ + h.duration + " cycles"@) + (x
            + rest),
        h.pitch is Some && style == TextStyle::Bullets ==> a + line_of(h, v, x, style) + rest == a + ("- t="@
            + h.start + " "@ + v + " "@ + h.pitch->0 + " dur="@ + h.duration) + rest,
{
    match (h.pitch, style) {
        (None, TextStyle::Prose) => {
            let w = "At cycle "@ + h.start + ", a structural mark: "@ + h.value;
            assert(line_of(h, v, x, style) == w + x);
            assert(a + (w + x) + rest =~= a + w + (x + rest));
        },
        (Some(p), TextStyle::Prose) => {
            let w = "At cycle "@ + h.start + ", the voice "@ + v + " "@ + p + " for "@ + h.duration + " cycles"@;
            assert(line_of(h, v, x, style) == w + x);
            assert(a + (w + x) + rest =~= a + w + (x + rest));
        },
        _ => {},
    }
}

/// Appends the line of one event.
fn push_line(out: &mut String, h: &HapText, v: &str, x: &str, style: TextStyle)
    ensures
        final(out)@ == old(out)@ + line_of(h@, v@, x@, style),
{
    let ghost before = out@;
    match style {
        TextStyle::Prose => match &h.pitch {
            Some(p) => {
                out.append("At cycle ");
                out.append(h.start.as_str());
                out.append(", the voice ");
                out.append(v);
                out.append(" ");
                out.append(p.as_str());
                out.append(" for ");
                out.append(h.duration.as_str());
                out.append(" cycles");
                out.append(x);
            },
            None => {
                out.append("At cycle ");
                out.append(h.start.as_str());
                out.append(", a structural mark: ");
                out.append(h.value.as_str());
                out.append(x);
            },
        },
        TextStyle::Bullets => match &h.pitch {
            Some(p) => {
                out.append("- t=");
                out.append(h.start.as_str());
                out.append(" ");
                out.append(v);
                out.append(" ");
                out.append(p.as_str());
                out.append(" dur=");
                out.append(h.duration.as_str());
            },
            None => {
                out.append("- t=");
                out.append(h.start.as_str());
                out.append(" mark=");
                out.append(h.value.as_str());
            },
        },
    }
    assert(out@ =~= before + line_of(h@, v@, x@, style));
}

impl TextAdapter {
    pub fn new(style: TextStyle) -> (a: TextAdapter)
        ensures
            a.style == style,
            a.seed == 0,
    {
        TextAdapter { style, seed: 0 }
    }

    pub fn with_seed(style: TextStyle, seed: u64) -> (a: TextAdapter)
        ensures
            a.style == style,
            a.seed == seed,
    {
        TextAdapter { style, seed }
    }

    /// The name of the adapter for its style.
    pub open spec fn spec_name(style: TextStyle) -> Seq<char> {
        match style {
            TextStyle::Prose => "text.prose"@,
            TextStyle::Bullets => "text.bullets"@,
        }
    }

    pub fn name(&self) -> (s: &'static str)
        ensures
            s@ == Self::spec_name(self.style),
    {
        match self.style {
            TextStyle::Prose => "text.prose",
            TextStyle::Bullets => "text.bullets",
        }
    }

    pub fn capabilities(&self) -> (c: AdapterCaps)
        ensures
            !c.realtime && !c.differentiable,
    {
        AdapterCaps { realtime: false, differentiable: false }
    }

    /// Renders the text of the refrain named `name` whose schedule is `haps`.
    pub fn render_text(&self, name: &str, haps: &Vec<HapText>) -> (out: String)
        ensures
            out@ == text_of(self.style, self.seed, name@, haps_model(haps@)),
    {
        let ghost hs = haps_model(haps@);
        let mut state = self.seed.wrapping_add(0x9E3779B97F4A7C15);
        let mut out = String::new();
        out.append("# Refrain: ");
        out.append(name);
        out.append("\n");
        let ghost head = out@;
        let mut i: usize = 0;
        assert(hs.skip(0) =~= hs);
        while i < haps.len()
            invariant
                i <= haps@.len(),
                hs == haps_model(haps@),
                hs.len() == haps@.len(),
                head == "# Refrain: "@ + name@ + "\n"@,
                head + lines_of(hs, salted(self.seed), self.style) == out@ + lines_of(
                    hs.skip(i as int),
                    state,
                    self.style,
                ),
            decreases haps@.len() - i,
        {
            proof {
                lemma_lines_split(hs, state, self.style, i as nat);
            }
            let ghost before = out@;
            let ghost st = state;
            let v = verb((lcg(&mut state) as usize) % 5);
            let x = suffix((lcg(&mut state) as usize) % 4);
            let h = &haps[i];
            assert(hs[i as int] == h@);
            push_line(&mut out, h, v, x, self.style);
            out.append("\n");
            proof {
                let line = line_of(
                    hs[i as int],
                    verb_word((lcg_step(st) as usize) % 5),
                    suffix_word((lcg_step(lcg_step(st)) as usize) % 4),
                    self.style,
                );
                assert(out@ =~= before + line + "\n"@);
                assert(before + lines_of(hs.skip(i as int), st, self.style) =~= out@ + lines_of(
                    hs.skip(i + 1),
                    state,
                    self.style,
                ));
            }
            i = i + 1;
        }
        assert(hs.skip(i as int) =~= Seq::<SpecHapText>::empty());
        assert(out@ =~= text_of(self.style, self.seed, name@, hs));
        out
    }
}

} // verus!

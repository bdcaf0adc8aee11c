use vstd::prelude::*;

use crate::graphics::{sgr_rgb, ColorPair, Gradient};
use crate::text::{char_string, chars_of, push_char, push_decimal_u8, decimal, same_chars};

verus! {

/// How a character looks: its symbol, text attributes and colors.
#[derive(Debug)]
pub struct CharacterVisual {
    pub symbol: String,
    pub bold: bool,
    pub dim: bool,
    pub italic: bool,
    pub underline: bool,
    pub blink: bool,
    pub reverse: bool,
    pub hidden: bool,
    pub strike: bool,
    pub colors: Option<ColorPair>,
    pub formatted_symbol: String,
}

impl Clone for CharacterVisual {
    fn clone(&self) -> (r: Self)
        ensures
            r == *self,
    {
        CharacterVisual {
            symbol: self.symbol.clone(),
            bold: self.bold,
            dim: self.dim,
            italic: self.italic,
            underline: self.underline,
            blink: self.blink,
            reverse: self.reverse,
            hidden: self.hidden,
            strike: self.strike,
            colors: self.colors,
            formatted_symbol: self.formatted_symbol.clone(),
        }
    }
}

/// `ESC [ d m`: the SGR sequence with the single parameter digit `d`.
pub open spec fn sgr_code(d: char) -> Seq<char> {
    seq!['\x1b', '[', d, 'm']
}

/// The SGR reset sequence `ESC [ 0 m`.
pub open spec fn sgr_reset() -> Seq<char> {
    sgr_code('0')
}

pub open spec fn code_if(on: bool, d: char) -> Seq<char> {
    if on { sgr_code(d) } else { Seq::empty() }
}

/// Escape sequences for the attributes bold, italic, underline, blink, reverse, hidden
/// and strike, in that order (dim emits none).
pub open spec fn attribute_codes(v: CharacterVisual) -> Seq<char> {
    code_if(v.bold, '1') + code_if(v.italic, '3') + code_if(v.underline, '4') + code_if(v.blink, '5')
        + code_if(v.reverse, '7') + code_if(v.hidden, '8') + code_if(v.strike, '9')
}

pub open spec fn sgr_opt(selector: char, c: Option<crate::graphics::Color>) -> Seq<char> {
    match c {
        Some(c) => sgr_rgb(selector, c),
        None => Seq::empty(),
    }
}

/// Foreground then background color sequences.
pub open spec fn color_codes(colors: Option<ColorPair>) -> Seq<char> {
    match colors {
        Some(p) => sgr_opt('3', p.fg) + sgr_opt('4', p.bg),
        None => Seq::empty(),
    }
}

/// Escape sequences for the attributes and colors of `v`.
pub open spec fn visual_formatting(v: CharacterVisual) -> Seq<char> {
    attribute_codes(v) + color_codes(v.colors)
}

/// The symbol wrapped in its formatting and a reset, or the bare symbol when unformatted.
pub open spec fn formatted(v: CharacterVisual) -> Seq<char> {
    let f = visual_formatting(v);
    if f.len() == 0 { v.symbol@ } else { f + v.symbol@ + sgr_reset() }
}

/// A symbol in a foreground color, as a plain visual formats it.
pub open spec fn fg_text(symbol: Seq<char>, color: crate::graphics::Color) -> Seq<char> {
    sgr_opt('3', Some(color)) + symbol + sgr_reset()
}

/// A visual without attributes whose colors are just a foreground formats to `fg_text`.
pub proof fn lemma_fg_text(v: CharacterVisual, color: crate::graphics::Color)
    requires
        !v.bold && !v.dim && !v.italic && !v.underline && !v.blink && !v.reverse && !v.hidden && !v.strike,
        v.colors == Some(ColorPair { fg: Some(color), bg: None }),
    ensures
        formatted(v) == fg_text(v.symbol@, color),
{
    assert(attribute_codes(v) =~= Seq::<char>::empty());
    assert(visual_formatting(v) =~= sgr_opt('3', Some(color)));
    assert(sgr_opt('3', Some(color)).len() > 0);
}

/// A symbol shown plainly in `colors`, as a visual without attributes formats it.
pub open spec fn plain_text(symbol: Seq<char>, colors: Option<ColorPair>) -> Seq<char> {
    let f = color_codes(colors);
    if f.len() == 0 { symbol } else { f + symbol + sgr_reset() }
}

/// A visual without attributes formats to `plain_text` of its symbol and colors.
pub proof fn lemma_plain_text(v: CharacterVisual)
    requires
        !v.bold && !v.dim && !v.italic && !v.underline && !v.blink && !v.reverse && !v.hidden && !v.strike,
    ensures
        formatted(v) == plain_text(v.symbol@, v.colors),
{
    assert(attribute_codes(v) =~= Seq::<char>::empty());
    assert(visual_formatting(v) =~= color_codes(v.colors));
}

fn push_code(s: &mut String, on: bool, d: char)
    ensures
        final(s)@ == old(s)@ + code_if(on, d),
{
    if on {
        push_char(s, '\x1b');
        push_char(s, '[');
        push_char(s, d);
        push_char(s, 'm');
        proof {
            assert(final(s)@ =~= old(s)@ + code_if(on, d));
        }
    } else {
        proof {
            assert(s@ =~= old(s)@ + code_if(on, d));
        }
    }
}

impl CharacterVisual {
    /// A plain visual for `symbol` with the given colors, its formatted form computed.
    pub fn new(symbol: &str, colors: Option<ColorPair>) -> (v: Self)
        ensures
            v.symbol@ == symbol@,
            !v.bold && !v.dim && !v.italic && !v.underline && !v.blink && !v.reverse && !v.hidden && !v.strike,
            v.colors == colors,
            v.formatted_symbol@ == formatted(v),
    {
        let mut visual = CharacterVisual {
            symbol: String::from_str(symbol),
            bold: false,
            dim: false,
            italic: false,
            underline: false,
            blink: false,
            reverse: false,
            hidden: false,
            strike: false,
            colors,
            formatted_symbol: String::new(),
        };
        visual.refresh();
        visual
    }

    /// Recomputes `formatted_symbol` from the other fields.
    pub fn refresh(&mut self)
        ensures
            final(self).formatted_symbol@ == formatted(*final(self)),
            final(self).symbol == old(self).symbol,
            final(self).bold == old(self).bold,
            final(self).dim == old(self).dim,
            final(self).italic == old(self).italic,
            final(self).underline == old(self).underline,
            final(self).blink == old(self).blink,
            final(self).reverse == old(self).reverse,
            final(self).hidden == old(self).hidden,
            final(self).strike == old(self).strike,
            final(self).colors == old(self).colors,
    {
        self.formatted_symbol = self.format_symbol();
    }

    fn attribute_string(&self) -> (s: String)
        ensures
            s@ == attribute_codes(*self),
    {
        let mut s = String::new();
        push_code(&mut s, self.bold, '1');
        push_code(&mut s, self.italic, '3');
        push_code(&mut s, self.underline, '4');
        push_code(&mut s, self.blink, '5');
        push_code(&mut s, self.reverse, '7');
        push_code(&mut s, self.hidden, '8');
        push_code(&mut s, self.strike, '9');
        proof {
            assert(s@ =~= attribute_codes(*self));
        }
        s
    }

    /// The symbol wrapped in the escape sequences of its attributes and colors.
    pub fn format_symbol(&self) -> (s: String)
        ensures
            s@ == formatted(*self),
    {
        let mut formatting = self.attribute_string();
        let colors = color_string(&self.colors);
        formatting.append(colors.as_str());
        if formatting.as_str().unicode_len() == 0 {
            return self.symbol.clone();
        }
        let ghost f = formatting@;
        formatting.append(self.symbol.as_str());
        push_char(&mut formatting, '\x1b');
        push_char(&mut formatting, '[');
        push_char(&mut formatting, '0');
        push_char(&mut formatting, 'm');
        proof {
            assert(formatting@ =~= f + self.symbol@ + sgr_reset());
        }
        formatting
    }
}

fn color_string(colors: &Option<ColorPair>) -> (s: String)
    ensures
        s@ == color_codes(*colors),
{
    let mut s = String::new();
    if let Some(p) = colors {
        if let Some(fg) = p.fg {
            s.append(fg.fg_sgr().as_str());
        }
        if let Some(bg) = p.bg {
            s.append(bg.bg_sgr().as_str());
        }
        proof {
            assert(s@ =~= color_codes(*colors));
        }
    }
    s
}

/// One frame of a scene: a visual shown for `duration` ticks.
#[derive(Clone, Debug)]
pub struct Frame {
    pub character_visual: CharacterVisual,
    pub duration: u32,
}

/// What a scene's progress is synchronized with.
#[derive(Clone, Copy, Debug, PartialEq, Eq, Structural)]
pub enum SceneSync {
    Color,
    Symbol,
}

/// The ticks of all frames together.
pub open spec fn total_duration(frames: Seq<Frame>) -> int
    decreases frames.len(),
{
    if frames.len() == 0 {
        0
    } else {
        total_duration(frames.drop_last()) + frames.last().duration
    }
}

/// A scene one tick later, without easing (see `Scene::advance`).
pub open spec fn advanced(o: Scene) -> Scene {
    let n = o.frames@.len();
    if n == 0 {
        Scene { complete: true, ..o }
    } else if o.complete && !o.is_looping {
        o
    } else {
        let held: u32 = if o.hold == u32::MAX { u32::MAX } else { (o.hold + 1) as u32 };
        if held < o.frames@[o.current_frame_index as int].duration {
            Scene { hold: held, ..o }
        } else if o.current_frame_index + 1 < n {
            Scene { hold: 0, current_frame_index: (o.current_frame_index + 1) as usize, ..o }
        } else if o.is_looping {
            Scene { hold: 0, current_frame_index: 0, complete: false, ..o }
        } else {
            Scene { hold: 0, complete: true, ..o }
        }
    }
}

/// The scene after `k` ticks without easing.
pub open spec fn advanced_n(s: Scene, k: nat) -> Scene
    decreases k,
{
    if k == 0 { s } else { advanced(advanced_n(s, (k - 1) as nat)) }
}

/// A sequence of frames a character plays through, one frame at a time, each held for
/// its duration, optionally looping. A scene with an easing picks its frame from the
/// eased fraction of its elapsed ticks instead; the easing itself is supplied by the
/// caller (see `advance_eased`).
pub struct Scene {
    pub scene_id: String,
    pub frames: Vec<Frame>,
    pub is_looping: bool,
    pub sync: Option<SceneSync>,
    pub complete: bool,
    pub current_frame_index: usize,
    pub hold: u32,
    pub elapsed: u32,
}

impl Scene {
    /// The frame index points at a frame, or is 0 for a scene without frames.
    pub open spec fn wf(&self) -> bool {
        self.current_frame_index == 0 || self.current_frame_index < self.frames@.len()
    }

    pub fn new(scene_id: &str) -> (s: Self)
        ensures
            s.scene_id@ == scene_id@,
            s.frames@.len() == 0,
            !s.is_looping,
            s.sync is None,
            !s.complete,
            s.current_frame_index == 0,
            s.hold == 0,
            s.elapsed == 0,
            s.wf(),
    {
        Scene {
            scene_id: String::from_str(scene_id),
            frames: Vec::new(),
            is_looping: false,
            sync: None,
            complete: false,
            current_frame_index: 0,
            hold: 0,
            elapsed: 0,
        }
    }

    /// Appends a frame showing `symbol` in `colors` for `duration` ticks (at least one).
    pub fn add_frame(&mut self, symbol: &str, duration: u32, colors: Option<ColorPair>)
        requires
            old(self).wf(),
        ensures
            final(self).wf(),
            final(self).frames@.len() == old(self).frames@.len() + 1,
            final(self).frames@.drop_last() == old(self).frames@,
            final(self).frames@.last().duration == (if duration > 1 { duration } else { 1 }),
            final(self).frames@.last().character_visual.symbol@ == symbol@,
            final(self).frames@.last().character_visual.colors == colors,
            final(self).frames@.last().character_visual.formatted_symbol@ == formatted(
                final(self).frames@.last().character_visual,
            ),
            final(self).scene_id == old(self).scene_id,
            final(self).is_looping == old(self).is_looping,
            final(self).complete == old(self).complete,
            final(self).current_frame_index == old(self).current_frame_index,
            final(self).hold == old(self).hold,
            final(self).elapsed == old(self).elapsed,
    {
        let d = if duration > 1 {
            duration
        } else {
            1
        };
        self.frames.push(Frame { character_visual: CharacterVisual::new(symbol, colors), duration: d });
        proof {
            assert(self.frames@.drop_last() =~= old(self).frames@);
        }
    }

    /// One frame per gradient color, in order, each showing the next symbol (cycling) in
    /// that color; nothing when either is empty.
    pub fn apply_gradient_to_symbols(&mut self, gradient: &Gradient, symbols: &str, duration: u32)
        requires
            old(self).wf(),
        ensures
            final(self).wf(),
            symbols@.len() == 0 || gradient@.len() == 0 ==> final(self).frames@ == old(self).frames@,
            symbols@.len() > 0 && gradient@.len() > 0 ==> {
                &&& final(self).frames@.len() == old(self).frames@.len() + gradient@.len()
                &&& final(self).frames@.take(old(self).frames@.len() as int) == old(self).frames@
                &&& forall|i: int|
                    0 <= i < gradient@.len() ==> {
                        let f = #[trigger] final(self).frames@[old(self).frames@.len() + i];
                        &&& f.character_visual.symbol@ == seq![symbols@[i % (symbols@.len() as int)]]
                        &&& f.character_visual.colors == Some(ColorPair { fg: Some(gradient@[i]), bg: None })
                        &&& f.duration == (if duration > 1 { duration } else { 1 })
                    }
            },
            final(self).current_frame_index == old(self).current_frame_index,
            final(self).complete == old(self).complete,
    {
        let chars = chars_of(symbols);
        if chars.len() == 0 || gradient.is_empty() {
            return;
        }
        let spectrum = gradient.spectrum();
        let ghost start = self.frames@;
        let mut index: usize = 0;
        while index < spectrum.len()
            invariant
                self.wf(),
                chars@ == symbols@,
                chars@.len() > 0,
                spectrum@ == gradient@,
                index <= spectrum@.len(),
                self.frames@.len() == start.len() + index,
                self.frames@.take(start.len() as int) == start,
                self.current_frame_index == old(self).current_frame_index,
                self.complete == old(self).complete,
                forall|i: int|
                    0 <= i < index ==> {
                        let f = #[trigger] self.frames@[start.len() + i];
                        &&& f.character_visual.symbol@ == seq![symbols@[i % (symbols@.len() as int)]]
                        &&& f.character_visual.colors == Some(ColorPair { fg: Some(gradient@[i]), bg: None })
                        &&& f.duration == (if duration > 1 { duration } else { 1 })
                    },
            decreases spectrum.len() - index,
        {
            let ch = chars[index % chars.len()];
            let sym = char_string(ch);
            let ghost before = self.frames@;
            self.add_frame(sym.as_str(), duration, Some(ColorPair::fg(spectrum[index])));
            proof {
                assert(self.frames@.take(start.len() as int) =~= start) by {
                    assert(self.frames@.drop_last() == before);
                    assert forall|k: int| 0 <= k < start.len() implies self.frames@[k] == start[k] by {
                        assert(before[k] == before.take(start.len() as int)[k]);
                    }
                }
                assert forall|i: int| 0 <= i < index + 1 implies {
                    let f = #[trigger] self.frames@[start.len() + i];
                    &&& f.character_visual.symbol@ == seq![symbols@[i % (symbols@.len() as int)]]
                    &&& f.character_visual.colors == Some(ColorPair { fg: Some(gradient@[i]), bg: None })
                    &&& f.duration == (if duration > 1 { duration } else { 1 })
                } by {
                    if i < index {
                        assert(self.frames@[start.len() + i] == before[start.len() + i]);
                    }
                }
            }
            index = index + 1;
        }
    }

    /// Back to the first frame; a scene without frames counts as complete.
    pub fn reset(&mut self)
        requires
            old(self).wf(),
        ensures
            final(self).wf(),
            *final(self) == (Scene {
                current_frame_index: 0,
                hold: 0,
                elapsed: 0,
                complete: old(self).frames@.len() == 0,
                ..*old(self)
            }),
    {
        self.current_frame_index = 0;
        self.hold = 0;
        self.elapsed = 0;
        self.complete = self.frames.len() == 0;
    }

    /// The visual of the frame shown now, if there is one.
    pub open spec fn current_visual_spec(&self) -> Option<CharacterVisual> {
        if self.current_frame_index < self.frames@.len() {
            Some(self.frames@[self.current_frame_index as int].character_visual)
        } else {
            None
        }
    }

    /// The visual of the frame shown now, if there is one.
    pub fn current_visual(&self) -> (v: Option<&CharacterVisual>)
        ensures
            v == (if self.current_frame_index < self.frames@.len() {
                Some(&self.frames@[self.current_frame_index as int].character_visual)
            } else {
                None
            }),
    {
        if self.current_frame_index < self.frames.len() {
            Some(&self.frames[self.current_frame_index].character_visual)
        } else {
            None
        }
    }

    /// One tick of a scene without easing: the current frame is held one tick longer, and
    /// once held for its duration the scene moves to the next frame, wrapping to the first
    /// when looping and completing after the last otherwise. A scene without frames
    /// completes; a completed scene that does not loop stays as it is.
    pub fn advance(&mut self)
        requires
            old(self).wf(),
        ensures
            final(self).wf(),
            *final(self) == advanced(*old(self)),
    {
        if self.frames.len() == 0 {
            self.complete = true;
            return;
        }
        if self.complete && !self.is_looping {
            return;
        }
        let duration = self.frames[self.current_frame_index].duration;
        self.hold = if self.hold == u32::MAX {
            u32::MAX
        } else {
            self.hold + 1
        };
        if self.hold >= duration {
            self.hold = 0;
            if self.current_frame_index + 1 >= self.frames.len() {
                if self.is_looping {
                    self.current_frame_index = 0;
                    self.complete = false;
                } else {
                    self.complete = true;
                }
            } else {
                self.current_frame_index = self.current_frame_index + 1;
            }
        }
    }

    /// One tick of an eased scene, up to where its easing decides the frame: the elapsed
    /// ticks grow by one; past the total a looping scene starts over and any other
    /// completes on its last frame. Returns the elapsed and total ticks when the caller
    /// must pick the frame from its easing (`show_frame`), `None` when the tick is over.
    pub fn advance_eased(&mut self) -> (r: Option<(u32, u32)>)
        requires
            old(self).wf(),
            total_duration(old(self).frames@) <= u32::MAX,
        ensures
            final(self).wf(),
            final(self).frames@ == old(self).frames@,
            final(self).is_looping == old(self).is_looping,
            final(self).hold == old(self).hold,
            final(self).scene_id == old(self).scene_id,
            final(self).sync == old(self).sync,
            final(self).frames == old(self).frames,
            ({
                let o = old(self);
                let n = o.frames@.len();
                let total = total_duration(o.frames@);
                let e = if o.elapsed == u32::MAX { u32::MAX as int } else { o.elapsed + 1 };
                if n == 0 || total == 0 {
                    r is None && final(self).complete && final(self).current_frame_index == o.current_frame_index
                        && final(self).elapsed == o.elapsed
                } else if o.complete && !o.is_looping {
                    r is None && final(self).complete && final(self).current_frame_index == o.current_frame_index
                        && final(self).elapsed == o.elapsed
                } else if e >= total && !o.is_looping {
                    r is None && final(self).complete && final(self).current_frame_index == n - 1
                        && final(self).elapsed == total
                } else if e >= total {
                    r == Some((0u32, total as u32)) && !final(self).complete && final(self).elapsed == 0
                        && final(self).current_frame_index == o.current_frame_index
                } else {
                    r == Some((e as u32, total as u32)) && final(self).complete == o.complete
                        && final(self).elapsed == e && final(self).current_frame_index == o.current_frame_index
                }
            }),
    {
        if self.frames.len() == 0 {
            self.complete = true;
            return None;
        }
        if self.complete && !self.is_looping {
            return None;
        }
        let mut total: u32 = 0;
        let mut k: usize = 0;
        while k < self.frames.len()
            invariant
                k <= self.frames@.len(),
                total_duration(self.frames@) <= u32::MAX,
                total == total_duration(self.frames@.take(k as int)),
            decreases self.frames.len() - k,
        {
            proof {
                assert(self.frames@.take(k + 1).drop_last() =~= self.frames@.take(k as int));
                lemma_total_prefix(self.frames@, k as int + 1);
            }
            total = total + self.frames[k].duration;
            k = k + 1;
        }
        proof {
            assert(self.frames@.take(self.frames@.len() as int) =~= self.frames@);
        }
        if total == 0 {
            self.complete = true;
            return None;
        }
        self.elapsed = if self.elapsed == u32::MAX {
            u32::MAX
        } else {
            self.elapsed + 1
        };
        if self.elapsed >= total {
            if self.is_looping {
                self.elapsed = 0;
                self.complete = false;
            } else {
                self.elapsed = total;
                self.complete = true;
                self.current_frame_index = self.frames.len() - 1;
                return None;
            }
        }
        Some((self.elapsed, total))
    }

    /// Shows frame `index`, or the last frame if `index` is past it.
    pub fn show_frame(&mut self, index: usize)
        requires
            old(self).frames@.len() > 0,
        ensures
            final(self).wf(),
            *final(self) == (Scene {
                current_frame_index: (if index < old(self).frames@.len() { index as int } else { old(self).frames@.len() - 1 }) as usize,
                ..*old(self)
            }),
    {
        let last = self.frames.len() - 1;
        self.current_frame_index = if index < last {
            index
        } else {
            last
        };
    }
}

proof fn lemma_total_prefix(frames: Seq<Frame>, k: int)
    requires
        0 <= k <= frames.len(),
    ensures
        total_duration(frames.take(k)) <= total_duration(frames),
    decreases frames.len(),
{
    if frames.len() > 0 {
        if k == frames.len() {
            assert(frames.take(k) =~= frames);
        } else {
            assert(frames.drop_last().take(k) =~= frames.take(k));
            lemma_total_prefix(frames.drop_last(), k);
        }
    }
}

/// The scenes of one character, the one playing now, and how the character looks.
pub struct Animation {
    pub scenes: Vec<Scene>,
    pub active_scene: Option<String>,
    pub current_character_visual: CharacterVisual,
    pub input_symbol: String,
}

/// The position of the scene named `id`, if there is one.
pub open spec fn scene_position(scenes: Seq<Scene>, id: Seq<char>) -> Option<int> {
    if exists|i: int| 0 <= i < scenes.len() && (#[trigger] scenes[i]).scene_id@ == id {
        Some(choose|i: int| 0 <= i < scenes.len() && (#[trigger] scenes[i]).scene_id@ == id)
    } else {
        None
    }
}

impl Animation {
    /// No two scenes share an id, and every scene is well formed.
    pub open spec fn wf(&self) -> bool {
        &&& forall|i: int, j: int|
            0 <= i < j < self.scenes@.len() ==> (#[trigger] self.scenes@[i]).scene_id@ != (#[trigger] self.scenes@[j]).scene_id@
        &&& forall|i: int| 0 <= i < self.scenes@.len() ==> (#[trigger] self.scenes@[i]).wf()
    }

    /// The active scene's position, if a scene is active and exists.
    pub open spec fn active_position(&self) -> Option<int> {
        match self.active_scene {
            Some(id) => scene_position(self.scenes@, id@),
            None => None,
        }
    }

    /// No scenes yet, nothing playing, looking like the plain input symbol.
    pub fn new(input_symbol: &str) -> (a: Self)
        ensures
            a.wf(),
            a.scenes@.len() == 0,
            a.active_scene is None,
            a.input_symbol@ == input_symbol@,
            a.current_character_visual.symbol@ == input_symbol@,
            a.current_character_visual.colors is None,
            !a.current_character_visual.bold && !a.current_character_visual.dim && !a.current_character_visual.italic
                && !a.current_character_visual.underline && !a.current_character_visual.blink
                && !a.current_character_visual.reverse && !a.current_character_visual.hidden
                && !a.current_character_visual.strike,
            a.current_character_visual.formatted_symbol@ == formatted(a.current_character_visual),
    {
        Animation {
            scenes: Vec::new(),
            active_scene: None,
            current_character_visual: CharacterVisual::new(input_symbol, None),
            input_symbol: String::from_str(input_symbol),
        }
    }

    fn find_scene(&self, scene_id: &str) -> (r: Option<usize>)
        requires
            self.wf(),
        ensures
            r matches Some(i) ==> scene_position(self.scenes@, scene_id@) == Some(i as int),
            r is None ==> scene_position(self.scenes@, scene_id@) is None,
    {
        let want = chars_of(scene_id);
        let mut i: usize = 0;
        while i < self.scenes.len()
            invariant
                self.wf(),
                want@ == scene_id@,
                i <= self.scenes@.len(),
                forall|k: int| 0 <= k < i ==> (#[trigger] self.scenes@[k]).scene_id@ != scene_id@,
            decreases self.scenes.len() - i,
        {
            let name = chars_of(self.scenes[i].scene_id.as_str());
            if same_chars(&name, scene_id) {
                proof {
                    let c = choose|k: int| 0 <= k < self.scenes@.len() && (#[trigger] self.scenes@[k]).scene_id@ == scene_id@;
                    assert(self.scenes@[i as int].scene_id@ == scene_id@);
                    if c != i {
                        if c < i {
                            assert(self.scenes@[c].scene_id@ != self.scenes@[i as int].scene_id@);
                        } else {
                            assert(self.scenes@[i as int].scene_id@ != self.scenes@[c].scene_id@);
                        }
                    }
                }
                return Some(i);
            }
            i = i + 1;
        }
        None
    }

    /// The position of the scene named `scene_id`, adding an empty scene of that name
    /// last when there is none.
    pub fn new_scene(&mut self, scene_id: &str) -> (i: usize)
        requires
            old(self).wf(),
        ensures
            final(self).wf(),
            i < final(self).scenes@.len(),
            final(self).scenes@[i as int].scene_id@ == scene_id@,
            scene_position(old(self).scenes@, scene_id@) matches Some(k) ==> i == k && final(self).scenes@ == old(self).scenes@,
            scene_position(old(self).scenes@, scene_id@) is None ==> {
                &&& i == old(self).scenes@.len()
                &&& final(self).scenes@.drop_last() == old(self).scenes@
                &&& final(self).scenes@[i as int].frames@.len() == 0
                &&& !final(self).scenes@[i as int].is_looping
                &&& !final(self).scenes@[i as int].complete
                &&& final(self).scenes@[i as int].current_frame_index == 0
            },
            final(self).active_scene == old(self).active_scene,
            final(self).current_character_visual == old(self).current_character_visual,
            final(self).input_symbol == old(self).input_symbol,
    {
        match self.find_scene(scene_id) {
            Some(i) => {
                proof {
                    let c = choose|k: int| 0 <= k < self.scenes@.len() && (#[trigger] self.scenes@[k]).scene_id@ == scene_id@;
                    assert(self.scenes@[c].scene_id@ == scene_id@);
                }
                i
            },
            None => {
                let ghost before = self.scenes@;
                self.scenes.push(Scene::new(scene_id));
                proof {
                    assert(self.scenes@.drop_last() =~= before);
                    assert forall|a: int, b: int| 0 <= a < b < self.scenes@.len() implies (#[trigger] self.scenes@[a]).scene_id@
                        != (#[trigger] self.scenes@[b]).scene_id@ by {
                        if b == before.len() {
                            assert(self.scenes@[a] == before[a]);
                        } else {
                            assert(self.scenes@[a] == before[a] && self.scenes@[b] == before[b]);
                        }
                    }
                    assert forall|k: int| 0 <= k < self.scenes@.len() implies (#[trigger] self.scenes@[k]).wf() by {
                        if k < before.len() {
                            assert(self.scenes@[k] == before[k]);
                        }
                    }
                }
                self.scenes.len() - 1
            },
        }
    }

    /// The scene named `scene_id`, or the error that names it as not found.
    pub fn query_scene(&self, scene_id: &str) -> (r: Result<&Scene, AnimationError>)
        requires
            self.wf(),
        ensures
            scene_position(self.scenes@, scene_id@) matches Some(k) ==> r == Ok::<&Scene, AnimationError>(&self.scenes@[k]),
            scene_position(self.scenes@, scene_id@) is None ==> (r matches Err(AnimationError::SceneNotFound(id)) && id@ == scene_id@),
    {
        match self.find_scene(scene_id) {
            Some(i) => Ok(&self.scenes[i]),
            None => Err(AnimationError::SceneNotFound(String::from_str(scene_id))),
        }
    }

    /// Starts the scene named `scene_id` from its first frame and shows that frame; an
    /// unknown name changes nothing.
    pub fn activate_scene(&mut self, scene_id: &str)
        requires
            old(self).wf(),
        ensures
            final(self).wf(),
            final(self).input_symbol == old(self).input_symbol,
            final(self).scenes@.len() == old(self).scenes@.len(),
            scene_position(old(self).scenes@, scene_id@) is None ==> *final(self) == *old(self),
            scene_position(old(self).scenes@, scene_id@) matches Some(k) ==> {
                let o = old(self).scenes@[k];
                let n = final(self).scenes@[k];
                &&& final(self).scenes@ == old(self).scenes@.update(k, n)
                &&& n == (Scene { current_frame_index: 0, hold: 0, elapsed: 0, complete: o.frames@.len() == 0, ..o })
                &&& (final(self).active_scene matches Some(id) && id@ == scene_id@)
                &&& final(self).current_character_visual == (if o.frames@.len() > 0 {
                    o.frames@[0].character_visual
                } else {
                    old(self).current_character_visual
                })
            },
    {
        match self.find_scene(scene_id) {
            Some(i) => {
                let ghost before = self.scenes@;
                let mut scene = self.scenes.remove(i);
                scene.reset();
                let shown = match scene.current_visual() {
                    Some(v) => Some(v.clone()),
                    None => None,
                };
                self.scenes.insert(i, scene);
                proof {
                    assert(self.scenes@ =~= before.update(i as int, self.scenes@[i as int]));
                    lemma_update_keeps_ids(before, i as int, self.scenes@[i as int]);
                }
                if let Some(v) = shown {
                    self.current_character_visual = v;
                }
                self.active_scene = Some(String::from_str(scene_id));
            },
            None => {},
        }
    }

    pub fn deactivate_scene(&mut self)
        ensures
            *final(self) == (Animation { active_scene: None, ..*old(self) }),
    {
        self.active_scene = None;
    }

    /// Shows `symbol` in `colors`, plainly.
    pub fn set_appearance(&mut self, symbol: &str, colors: Option<ColorPair>)
        ensures
            final(self).scenes == old(self).scenes,
            final(self).active_scene == old(self).active_scene,
            final(self).input_symbol == old(self).input_symbol,
            final(self).current_character_visual.symbol@ == symbol@,
            final(self).current_character_visual.colors == colors,
            !final(self).current_character_visual.bold && !final(self).current_character_visual.dim
                && !final(self).current_character_visual.italic && !final(self).current_character_visual.underline
                && !final(self).current_character_visual.blink && !final(self).current_character_visual.reverse
                && !final(self).current_character_visual.hidden && !final(self).current_character_visual.strike,
            final(self).current_character_visual.formatted_symbol@ == formatted(final(self).current_character_visual),
    {
        self.current_character_visual = CharacterVisual::new(symbol, colors);
    }

    /// Shows the active scene's current frame and stops the scene once it has completed
    /// without looping.
    fn settle_active(&mut self, i: usize)
        requires
            old(self).wf(),
            i < old(self).scenes@.len(),
        ensures
            final(self).wf(),
            final(self).scenes == old(self).scenes,
            final(self).input_symbol == old(self).input_symbol,
            final(self).current_character_visual == (match old(self).scenes@[i as int].current_visual_spec() {
                Some(v) => v,
                None => old(self).current_character_visual,
            }),
            final(self).active_scene == (if old(self).scenes@[i as int].complete && !old(self).scenes@[i as int].is_looping {
                None
            } else {
                old(self).active_scene
            }),
    {
        let shown = match self.scenes[i].current_visual() {
            Some(v) => Some(v.clone()),
            None => None,
        };
        if let Some(v) = shown {
            self.current_character_visual = v;
        }
        if self.scenes[i].complete && !self.scenes[i].is_looping {
            self.active_scene = None;
        }
    }

    /// One tick of the active scene (nothing when no known scene is active). A scene
    /// without easing advances by `Scene::advance`; for an eased scene (`eased`) the
    /// elapsed ticks advance by `Scene::advance_eased`, and when its easing must pick the
    /// frame the elapsed and total ticks are returned and `show_eased_frame` finishes the
    /// tick. Otherwise the character then shows the scene's current frame, and the scene
    /// stops once it has completed without looping.
    pub fn step_animation(&mut self, eased: bool) -> (r: Option<(u32, u32)>)
        requires
            old(self).wf(),
            eased ==> (old(self).active_position() matches Some(k) ==> total_duration(old(self).scenes@[k].frames@)
                <= u32::MAX),
        ensures
            final(self).wf(),
            final(self).input_symbol == old(self).input_symbol,
            final(self).scenes@.len() == old(self).scenes@.len(),
            old(self).active_position() is None ==> *final(self) == *old(self) && r is None,
            old(self).active_position() matches Some(k) ==> {
                let o = old(self).scenes@[k];
                let n = final(self).scenes@[k];
                &&& final(self).scenes@ == old(self).scenes@.update(k, n)
                &&& !eased ==> n == advanced(o) && r is None
                &&& r is None ==> {
                    &&& final(self).current_character_visual == (match n.current_visual_spec() {
                        Some(v) => v,
                        None => old(self).current_character_visual,
                    })
                    &&& final(self).active_scene == (if n.complete && !n.is_looping { None } else { old(self).active_scene })
                }
                &&& r is Some ==> eased && final(self).current_character_visual == old(self).current_character_visual
                    && final(self).active_scene == old(self).active_scene && n.frames@.len() > 0
            },
    {
        let i = match &self.active_scene {
            Some(id) => self.find_scene(id.as_str()),
            None => None,
        };
        let i = match i {
            Some(i) => i,
            None => {
                return None;
            },
        };
        let ghost before = self.scenes@;
        let mut scene = self.scenes.remove(i);
        let mut picked: Option<(u32, u32)> = None;
        if eased {
            picked = scene.advance_eased();
        } else {
            scene.advance();
        }
        self.scenes.insert(i, scene);
        proof {
            assert(self.scenes@ =~= before.update(i as int, self.scenes@[i as int]));
            lemma_update_keeps_ids(before, i as int, self.scenes@[i as int]);
        }
        if picked.is_some() {
            return picked;
        }
        self.settle_active(i);
        None
    }

    /// Finishes an eased tick: shows frame `index` of the active scene (or its last
    /// frame), then settles as `step_animation` does.
    pub fn show_eased_frame(&mut self, index: usize)
        requires
            old(self).wf(),
            old(self).active_position() matches Some(k) ==> old(self).scenes@[k].frames@.len() > 0,
        ensures
            final(self).wf(),
            final(self).input_symbol == old(self).input_symbol,
            final(self).scenes@.len() == old(self).scenes@.len(),
            old(self).active_position() is None ==> *final(self) == *old(self),
            old(self).active_position() matches Some(k) ==> {
                let o = old(self).scenes@[k];
                let n = final(self).scenes@[k];
                &&& final(self).scenes@ == old(self).scenes@.update(k, n)
                &&& n == (Scene {
                    current_frame_index: (if index < o.frames@.len() { index as int } else { o.frames@.len() - 1 }) as usize,
                    ..o
                })
                &&& final(self).current_character_visual == n.frames@[n.current_frame_index as int].character_visual
                &&& final(self).active_scene == (if n.complete && !n.is_looping { None } else { old(self).active_scene })
            },
    {
        let i = match &self.active_scene {
            Some(id) => self.find_scene(id.as_str()),
            None => None,
        };
        let i = match i {
            Some(i) => i,
            None => {
                return;
            },
        };
        let ghost before = self.scenes@;
        let mut scene = self.scenes.remove(i);
        scene.show_frame(index);
        self.scenes.insert(i, scene);
        proof {
            assert(self.scenes@ =~= before.update(i as int, self.scenes@[i as int]));
            lemma_update_keeps_ids(before, i as int, self.scenes@[i as int]);
        }
        self.settle_active(i);
    }

    /// Whether the active scene has completed (true when none is active).
    pub fn active_scene_is_complete(&self) -> (b: bool)
        requires
            self.wf(),
        ensures
            b == (match self.active_scene {
                Some(_) => match self.active_position() {
                    Some(k) => self.scenes@[k].complete,
                    None => true,
                },
                None => true,
            }),
    {
        match &self.active_scene {
            Some(id) => match self.find_scene(id.as_str()) {
                Some(i) => self.scenes[i].complete,
                None => true,
            },
            None => true,
        }
    }

    pub fn is_active(&self) -> (b: bool)
        ensures
            b == self.active_scene is Some,
    {
        self.active_scene.is_some()
    }
}

proof fn lemma_update_keeps_ids(scenes: Seq<Scene>, k: int, n: Scene)
    requires
        0 <= k < scenes.len(),
        n.scene_id == scenes[k].scene_id,
        n.wf(),
        forall|i: int, j: int| 0 <= i < j < scenes.len() ==> (#[trigger] scenes[i]).scene_id@ != (#[trigger] scenes[j]).scene_id@,
        forall|i: int| 0 <= i < scenes.len() ==> (#[trigger] scenes[i]).wf(),
    ensures
        forall|i: int, j: int|
            0 <= i < j < scenes.update(k, n).len() ==> (#[trigger] scenes.update(k, n)[i]).scene_id@ != (#[trigger] scenes.update(
                k,
                n,
            )[j]).scene_id@,
        forall|i: int| 0 <= i < scenes.update(k, n).len() ==> (#[trigger] scenes.update(k, n)[i]).wf(),
        forall|id: Seq<char>| scene_position(scenes.update(k, n), id) == scene_position(scenes, id),
{
    let u = scenes.update(k, n);
    assert forall|i: int, j: int| 0 <= i < j < u.len() implies (#[trigger] u[i]).scene_id@ != (#[trigger] u[j]).scene_id@ by {
        assert(u[i].scene_id == scenes[i].scene_id);
        assert(u[j].scene_id == scenes[j].scene_id);
    }
    assert forall|id: Seq<char>| scene_position(u, id) == scene_position(scenes, id) by {
        assert forall|i: int| 0 <= i < u.len() implies (#[trigger] u[i]).scene_id@ == scenes[i].scene_id@ by {}
        if exists|i: int| 0 <= i < scenes.len() && (#[trigger] scenes[i]).scene_id@ == id {
            let w = choose|i: int| 0 <= i < scenes.len() && (#[trigger] scenes[i]).scene_id@ == id;
            assert(u[w].scene_id@ == id);
        }
        if exists|i: int| 0 <= i < u.len() && (#[trigger] u[i]).scene_id@ == id {
            let w = choose|i: int| 0 <= i < u.len() && (#[trigger] u[i]).scene_id@ == id;
            assert(scenes[w].scene_id@ == id);
        }
    }
}

/// The ticks of the frames from `i` on.
pub open spec fn ticks_from(frames: Seq<Frame>, i: int) -> int
    decreases frames.len() - i,
{
    if i < 0 || i >= frames.len() { 0 } else { frames[i].duration + ticks_from(frames, i + 1) }
}

proof fn lemma_advanced_n_split(s: Scene, a: nat, b: nat)
    ensures
        advanced_n(s, a + b) == advanced_n(advanced_n(s, a), b),
    decreases b,
{
    if b > 0 {
        lemma_advanced_n_split(s, a, (b - 1) as nat);
        assert((a + b - 1) as nat == a + (b - 1) as nat);
    }
}

proof fn lemma_holding(s: Scene, k: nat)
    requires
        s.current_frame_index < s.frames@.len(),
        !s.complete || s.is_looping,
        s.hold + k < s.frames@[s.current_frame_index as int].duration,
    ensures
        advanced_n(s, k) == (Scene { hold: (s.hold + k) as u32, ..s }),
    decreases k,
{
    if k > 0 {
        lemma_holding(s, (k - 1) as nat);
    }
}

/// Law: a frame is shown for exactly its duration. From the first tick of a frame of a
/// playing scene, the scene stays on it, one more tick held each time, for `duration - 1`
/// ticks, and the tick after that moves on: to the next frame, back to the first when
/// looping, or to completion after the last.
pub proof fn lemma_frame_shown_for_duration(s: Scene, k: nat)
    requires
        s.current_frame_index < s.frames@.len(),
        !s.complete || s.is_looping,
        s.hold == 0,
        k <= s.frames@[s.current_frame_index as int].duration,
        s.frames@[s.current_frame_index as int].duration >= 1,
    ensures
        k < s.frames@[s.current_frame_index as int].duration ==> advanced_n(s, k) == (Scene { hold: k as u32, ..s }),
        k == s.frames@[s.current_frame_index as int].duration ==> advanced_n(s, k) == (
            if s.current_frame_index + 1 < s.frames@.len() {
                Scene { current_frame_index: (s.current_frame_index + 1) as usize, ..s }
            } else if s.is_looping {
                Scene { current_frame_index: 0, complete: false, ..s }
            } else {
                Scene { complete: true, ..s }
            }),
{
    let d = s.frames@[s.current_frame_index as int].duration;
    if k < d {
        lemma_holding(s, k);
    } else {
        lemma_holding(s, (k - 1) as nat);
    }
}

/// Law: a scene that does not loop, played from the start of frame `i`, completes on
/// its last frame after exactly the ticks of the frames from `i` on, and not before.
pub proof fn lemma_scene_completes_after_its_ticks(s: Scene, i: int)
    requires
        0 <= i < s.frames@.len(),
        s.current_frame_index == i,
        s.hold == 0,
        !s.complete,
        !s.is_looping,
        forall|j: int| 0 <= j < s.frames@.len() ==> #[trigger] s.frames@[j].duration >= 1,
    ensures
        advanced_n(s, ticks_from(s.frames@, i) as nat).complete,
        advanced_n(s, ticks_from(s.frames@, i) as nat).current_frame_index == s.frames@.len() - 1,
        forall|k: nat| k < ticks_from(s.frames@, i) ==> !(#[trigger] advanced_n(s, k)).complete,
    decreases s.frames@.len() - i,
{
    let d = s.frames@[i].duration;
    let total = ticks_from(s.frames@, i);
    lemma_frame_shown_for_duration(s, d as nat);
    let next = advanced_n(s, d as nat);
    assert forall|k: nat| k < d implies !(#[trigger] advanced_n(s, k)).complete by {
        lemma_frame_shown_for_duration(s, k);
    }
    if i + 1 < s.frames@.len() {
        assert(s.frames@.len() == s.frames.len());
        assert(next == (Scene { current_frame_index: (i + 1) as usize, ..s }));
        assert(next.frames@ == s.frames@);
        lemma_scene_completes_after_its_ticks(next, i + 1);
        lemma_ticks_nonneg(s.frames@, i + 1);
        lemma_advanced_n_split(s, d as nat, (total - d) as nat);
        assert((d as nat + (total - d) as nat) as nat == total as nat);
        assert forall|k: nat| k < total implies !(#[trigger] advanced_n(s, k)).complete by {
            if k >= d {
                lemma_advanced_n_split(s, d as nat, (k - d) as nat);
                assert((d as nat + (k - d) as nat) as nat == k);
            }
        }
    } else {
        assert(ticks_from(s.frames@, i + 1) == 0);
    }
}

/// The frame on screen `k` ticks after frame `i` starts: each frame held for its duration,
/// the last one kept.
pub open spec fn frame_covering(frames: Seq<Frame>, i: int, k: int) -> int
    decreases frames.len() - i,
{
    if i < 0 || i + 1 >= frames.len() || k < frames[i].duration {
        i
    } else {
        frame_covering(frames, i + 1, k - frames[i].duration)
    }
}

proof fn lemma_stays_complete(s: Scene, m: nat)
    requires
        s.frames@.len() > 0,
        s.complete,
        !s.is_looping,
    ensures
        advanced_n(s, m) == s,
    decreases m,
{
    if m > 0 {
        lemma_stays_complete(s, (m - 1) as nat);
    }
}

/// Law: a scene that does not loop, played from the start of frame `i`, shows after `k`
/// ticks the frame that covers tick `k` (each frame held its duration), completes exactly
/// when `k` reaches the ticks of the frames from `i` on, and changes no more after that.
pub proof fn lemma_scene_play(s: Scene, i: int, k: nat)
    requires
        0 <= i < s.frames@.len(),
        s.current_frame_index == i,
        s.hold == 0,
        !s.complete,
        !s.is_looping,
        forall|j: int| 0 <= j < s.frames@.len() ==> #[trigger] s.frames@[j].duration >= 1,
    ensures
        advanced_n(s, k).complete == (k >= ticks_from(s.frames@, i)),
        advanced_n(s, k).current_frame_index == frame_covering(s.frames@, i, k as int),
        k >= ticks_from(s.frames@, i) ==> advanced_n(s, k) == advanced_n(s, ticks_from(s.frames@, i) as nat),
    decreases s.frames@.len() - i,
{
    let d = s.frames@[i].duration;
    lemma_ticks_nonneg(s.frames@, i + 1);
    if k < d {
        lemma_frame_shown_for_duration(s, k);
    } else {
        lemma_frame_shown_for_duration(s, d as nat);
        let next = advanced_n(s, d as nat);
        lemma_advanced_n_split(s, d as nat, (k - d) as nat);
        assert((d as nat + (k - d) as nat) as nat == k);
        let t = ticks_from(s.frames@, i);
        if i + 1 < s.frames@.len() {
            assert(s.frames@.len() == s.frames.len());
            assert(next == (Scene { current_frame_index: (i + 1) as usize, ..s }));
            assert(next.frames@ == s.frames@);
            assert(next.current_frame_index == i + 1);
            lemma_scene_play(next, i + 1, (k - d) as nat);
            if k >= t {
                lemma_advanced_n_split(s, d as nat, (t - d) as nat);
                assert((d as nat + (t - d) as nat) as nat == t as nat);
            }
        } else {
            assert(ticks_from(s.frames@, i + 1) == 0);
            lemma_stays_complete(next, (k - d) as nat);
            lemma_stays_complete(next, 0);
        }
    }
}

proof fn lemma_ticks_from_drop_last(frames: Seq<Frame>, i: int)
    requires
        0 <= i < frames.len(),
    ensures
        ticks_from(frames, i) == ticks_from(frames.drop_last(), i) + frames.last().duration,
    decreases frames.len() - i,
{
    if i + 1 < frames.len() {
        lemma_ticks_from_drop_last(frames, i + 1);
        assert(frames.drop_last()[i] == frames[i]);
    } else {
        assert(ticks_from(frames, i + 1) == 0);
        assert(ticks_from(frames.drop_last(), i) == 0);
    }
}

/// The ticks of all frames counted from the first frame are their total duration.
pub proof fn lemma_ticks_from_start(frames: Seq<Frame>)
    ensures
        ticks_from(frames, 0) == total_duration(frames),
    decreases frames.len(),
{
    if frames.len() > 0 {
        lemma_ticks_from_drop_last(frames, 0);
        lemma_ticks_from_start(frames.drop_last());
    }
}

proof fn lemma_ticks_nonneg(frames: Seq<Frame>, i: int)
    ensures
        ticks_from(frames, i) >= 0,
    decreases frames.len() - i,
{
    if 0 <= i < frames.len() {
        lemma_ticks_nonneg(frames, i + 1);
    }
}

/// Errors of the animation engine.
#[derive(Clone, Debug)]
pub enum AnimationError {
    DuplicateSceneId(String),
    SceneNotFound(String),
    ActivateEmptyScene(String),
    FrameDuration(u32),
}

/// `'id'`: the identifier in single quotes.
pub open spec fn quoted(id: Seq<char>) -> Seq<char> {
    seq!['\''] + id + seq!['\'']
}

/// The message each error displays.
pub open spec fn animation_error_message(e: AnimationError) -> Seq<char> {
    match e {
        AnimationError::DuplicateSceneId(id) => "duplicate scene id "@ + quoted(id@),
        AnimationError::SceneNotFound(id) => "scene "@ + quoted(id@) + " not found"@,
        AnimationError::ActivateEmptyScene(id) => "cannot activate empty scene "@ + quoted(id@),
        AnimationError::FrameDuration(d) => "invalid frame duration "@ + decimal_u32(d),
    }
}

/// The decimal representation of `n`.
pub open spec fn decimal_u32(n: u32) -> Seq<char> {
    decimal(n as nat)
}

fn push_decimal_u32(s: &mut String, n: u32)
    ensures
        final(s)@ == old(s)@ + decimal(n as nat),
    decreases n,
{
    if n >= 10 {
        push_decimal_u32(s, n / 10);
        push_decimal_u8(s, (n % 10) as u8);
        proof {
            assert(decimal((n % 10) as nat) == seq![crate::text::decimal_digit((n % 10) as nat)]);
            assert(final(s)@ =~= old(s)@ + decimal(n as nat));
        }
    } else {
        push_decimal_u8(s, n as u8);
    }
}

fn push_quoted(s: &mut String, id: &String)
    ensures
        final(s)@ == old(s)@ + quoted(id@),
{
    push_char(s, '\'');
    s.append(id.as_str());
    push_char(s, '\'');
    proof {
        assert(final(s)@ =~= old(s)@ + quoted(id@));
    }
}

impl AnimationError {
    /// The human-readable message for this error.
    pub fn message(&self) -> (s: String)
        ensures
            s@ == animation_error_message(*self),
    {
        match self {
            AnimationError::DuplicateSceneId(id) => {
                let mut s = String::from_str("duplicate scene id ");
                push_quoted(&mut s, id);
                s
            },
            AnimationError::SceneNotFound(id) => {
                let mut s = String::from_str("scene ");
                push_quoted(&mut s, id);
                s.append(" not found");
                s
            },
            AnimationError::ActivateEmptyScene(id) => {
                let mut s = String::from_str("cannot activate empty scene ");
                push_quoted(&mut s, id);
                s
            },
            AnimationError::FrameDuration(d) => {
                let mut s = String::from_str("invalid frame duration ");
                push_decimal_u32(&mut s, *d);
                s
            },
        }
    }
}

} // verus!

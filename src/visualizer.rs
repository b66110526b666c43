//! What a visualizer of the alignment may be told, and when it draws.
use vstd::prelude::*;
use vstd::string::*;
use vstd::utf8::*;
use crate::aligners::Pos;
use crate::cigar::{decimal, push_decimal, Cigar};
use crate::util::{ascii_text, utf8_string};

verus! {

/// The drawing style.
#[derive(Debug, PartialEq, Eq, Structural, Clone, Copy)]
pub enum VisualizerStyle {
    Default,
    Large,
    Detailed,
}

impl Default for VisualizerStyle {
    fn default() -> (r: Self)
        ensures
            r == VisualizerStyle::Default,
    {
        VisualizerStyle::Default
    }
}

/// Which frames to show or save.
#[derive(Debug, PartialEq, Eq, Clone)]
pub enum When {
    Never,
    Last,
    All,
    Layers,
    /// Each `n`th frame.
    StepBy(usize),
    /// Each `n`th layer.
    LayersStepBy(usize),
    /// The listed frames; `usize::MAX` stands for the last one.
    Frames(Vec<usize>),
}

/// Horizontal alignment of a label.
#[derive(Debug, PartialEq, Eq, Structural, Clone, Copy)]
pub enum HAlign {
    Left,
    Center,
    Right,
}

/// Vertical alignment of a label.
#[derive(Debug, PartialEq, Eq, Structural, Clone, Copy)]
pub enum VAlign {
    Top,
    Center,
    Bottom,
}

/// The kind of a visited state.
#[derive(PartialEq, Eq, Structural, Clone, Copy, Debug)]
pub enum Type {
    Expanded,
    Explored,
    Extended,
}

/// Whether a frame with the given numbers is drawn under `w`.
pub open spec fn when_active(w: When, frame: usize, layer: usize, is_last: bool, new_layer: bool) -> bool {
    match w {
        When::Never => false,
        When::Last => is_last,
        When::All => is_last || !new_layer,
        When::Layers => is_last || new_layer,
        When::Frames(v) => v@.contains(frame) || (is_last && v@.contains(usize::MAX)),
        When::StepBy(step) => is_last || frame % step == 0,
        When::LayersStepBy(step) => is_last || (new_layer && layer % step == 0),
    }
}

/// Whether `v` holds `x`.
fn vec_contains(v: &Vec<usize>, x: usize) -> (r: bool)
    ensures
        r == v@.contains(x),
{
    for t in 0..v.len()
        invariant
            forall|q: int| 0 <= q < t ==> v@[q] != x,
    {
        if v[t] == x {
            return true;
        }
    }
    false
}

impl When {
    /// Whether frame number `frame` of layer `layer` is drawn.
    pub fn is_active(&self, frame: usize, layer: usize, is_last: bool, new_layer: bool) -> (r: bool)
        requires
            *self matches When::StepBy(step) ==> step > 0,
            *self matches When::LayersStepBy(step) ==> step > 0,
        ensures
            r == when_active(*self, frame, layer, is_last, new_layer),
    {
        match self {
            When::Never => false,
            When::Last => is_last,
            When::All => is_last || !new_layer,
            When::Layers => is_last || new_layer,
            When::Frames(v) => vec_contains(v, frame) || (is_last && vec_contains(v, usize::MAX)),
            When::StepBy(step) => is_last || frame % *step == 0,
            When::LayersStepBy(step) => is_last || (new_layer && layer % *step == 0),
        }
    }
}

/// Encoding a concatenation concatenates the encodings.
proof fn lemma_encode_concat(c1: Seq<char>, c2: Seq<char>)
    ensures
        encode_utf8(c1 + c2) == encode_utf8(c1) + encode_utf8(c2),
    decreases c1.len(),
{
    if c1.len() > 0 {
        assert((c1 + c2).drop_first() =~= c1.drop_first() + c2);
        assert((c1 + c2)[0] == c1[0]);
        lemma_encode_concat(c1.drop_first(), c2);
        assert(encode_utf8(c1 + c2) =~= encode_utf8(c1) + encode_utf8(c2));
    } else {
        assert(c1 + c2 =~= c2);
        assert(encode_utf8(c1) + encode_utf8(c2) =~= encode_utf8(c2));
    }
}

/// ASCII bytes are the encoding of their characters.
proof fn lemma_encode_ascii(s: Seq<u8>)
    requires
        forall|i: int| 0 <= i < s.len() ==> s[i] < 128,
    ensures
        encode_utf8(ascii_text(s)) == s,
{
    let d = ascii_text(s);
    assert(is_ascii_chars(d));
    is_ascii_chars_encode_utf8(d);
    assert(encode_utf8(d) =~= s);
}

/// A label: `text` followed by the decimal digits of `val`.
pub fn make_label(text: &str, val: usize) -> (r: String)
    ensures
        r@ == text@ + ascii_text(decimal(val as nat)),
{
    let mut v = text.as_bytes_vec();
    let ghost tb = v@;
    push_decimal(&mut v, val);
    proof {
        let digits = decimal(val as nat);
        crate::cigar::lemma_decimal_ascii(val as nat);
        lemma_encode_ascii(digits);
        lemma_encode_concat(text@, ascii_text(digits));
        assert(v@ == encode_utf8(text@ + ascii_text(digits)));
        encode_utf8_valid_utf8(text@ + ascii_text(digits));
        encode_utf8_decode_utf8(text@ + ascii_text(digits));
    }
    utf8_string(v)
}

/// A visualizer is told of the states an aligner visits.
pub trait VisualizerT {
    fn explore(&mut self, _pos: Pos, _g: u32, _f: u32) {
    }

    fn expand(&mut self, _pos: Pos, _g: u32, _f: u32) {
    }

    fn extend(&mut self, _pos: Pos, _g: u32, _f: u32) {
    }

    /// Called after completing each layer.
    fn new_layer(&mut self) {
    }

    /// Called after the main loop to show the final image.
    fn last_frame(&mut self, _cigar: Option<&Cigar>) {
    }
}

/// A visualizer that does nothing.
pub struct NoVisualizer;

impl VisualizerT for NoVisualizer {

}

} // verus!

use crate::number::{from_int_spec, Decimal};
use vstd::prelude::*;

verus! {

broadcast use {vstd::seq_lib::group_seq_properties, vstd::std_specs::vec::group_vec_axioms};

/// A run of text placed at a position, in a font size.
#[derive(Debug)]
pub struct TextPaintingOperation {
    pub x: Decimal,
    pub y: Decimal,
    pub text: String,
    pub font_size: Decimal,
}

pub struct RunModel {
    pub x: Decimal,
    pub y: Decimal,
    pub text: Seq<char>,
    pub font_size: Decimal,
}

impl View for TextPaintingOperation {
    type V = RunModel;

    open spec fn view(&self) -> RunModel {
        RunModel { x: self.x, y: self.y, text: self.text@, font_size: self.font_size }
    }
}

pub open spec fn runs_view(v: Seq<TextPaintingOperation>) -> Seq<RunModel> {
    v.map_values(|r: TextPaintingOperation| r@)
}

/// The state of one text object: pen position, font size, and the runs
/// placed so far.
pub struct TextModel {
    pub x: Decimal,
    pub y: Decimal,
    pub font_size: Decimal,
    pub runs: Seq<RunModel>,
}

/// The state at the start of a text object.
pub open spec fn fresh_text() -> TextModel {
    TextModel {
        x: from_int_spec(0),
        y: from_int_spec(0),
        font_size: from_int_spec(0),
        runs: Seq::empty(),
    }
}

pub struct TextState {
    x: Decimal,
    y: Decimal,
    font_size: Decimal,
    paintings: Vec<TextPaintingOperation>,
}

impl View for TextState {
    type V = TextModel;

    closed spec fn view(&self) -> TextModel {
        TextModel {
            x: self.x,
            y: self.y,
            font_size: self.font_size,
            runs: runs_view(self.paintings@),
        }
    }
}

impl TextState {
    /// A fresh state: at (0, 0), font size 0, no runs.
    pub fn new() -> (r: TextState)
        ensures
            r@ == fresh_text(),
    {
        let r = TextState {
            x: Decimal::from_usize(0),
            y: Decimal::from_usize(0),
            font_size: Decimal::from_usize(0),
            paintings: Vec::new(),
        };
        assert(runs_view(r.paintings@) =~= Seq::<RunModel>::empty());
        r
    }

    pub fn set_font_size(&mut self, size: Decimal)
        ensures
            final(self)@ == (TextModel { font_size: size, ..old(self)@ }),
    {
        self.font_size = size;
    }

    pub fn get_font_size(&self) -> (r: Decimal)
        ensures
            r == self@.font_size,
    {
        self.font_size
    }

    pub fn set_pos(&mut self, x: Decimal, y: Decimal)
        ensures
            final(self)@ == (TextModel { x, y, ..old(self)@ }),
    {
        self.x = x;
        self.y = y;
    }

    pub fn get_pos(&self) -> (r: (Decimal, Decimal))
        ensures
            r == (self@.x, self@.y),
    {
        (self.x, self.y)
    }

    /// Places the text `s` at the current position, in the current size.
    pub fn push(&mut self, s: String)
        ensures
            final(self)@ == (TextModel {
                runs: old(self)@.runs.push(
                    RunModel { x: old(self)@.x, y: old(self)@.y, text: s@, font_size: old(self)@.font_size },
                ),
                ..old(self)@
            }),
    {
        let ghost before = runs_view(self.paintings@);
        let run = TextPaintingOperation { x: self.x, y: self.y, text: s, font_size: self.font_size };
        let ghost rv = run@;
        self.paintings.push(run);
        assert(runs_view(self.paintings@) =~= before.push(rv));
    }

    /// Hands out the runs placed so far, and forgets them.
    pub fn drain(&mut self) -> (r: Vec<TextPaintingOperation>)
        ensures
            runs_view(r@) == old(self)@.runs,
            final(self)@ == (TextModel { runs: Seq::empty(), ..old(self)@ }),
    {
        let r = self.paintings.split_off(0);
        assert(runs_view(self.paintings@) =~= Seq::<RunModel>::empty());
        r
    }
}

} // verus!

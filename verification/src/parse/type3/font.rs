//! Fonts whose glyphs are content of their own.

use crate::error::Error;
use crate::error::ErrorView;
use crate::error::FileError;
use crate::float::Float;
use crate::pdf::object::same_bytes;
use crate::pdf::object::ContentView;
use crate::pdf::object::DictView;
use crate::pdf::object::PdfContent;
use crate::pdf::object::PdfDictionary;
use crate::transform::Transform;
use crate::types;
use vstd::prelude::*;

verus! {

/// What draws a glyph.
#[derive(Debug)]
pub enum Glyph {
    Missing,
    Stream(PdfContent),
    /// The content could not be had.
    Broken(FileError),
}

/// What is seen of a [`Glyph`].
pub enum GlyphView {
    Missing,
    Stream(ContentView),
    Broken(FileError),
}

impl View for Glyph {
    type V = GlyphView;

    open spec fn view(&self) -> GlyphView {
        match *self {
            Glyph::Missing => GlyphView::Missing,
            Glyph::Stream(content) => GlyphView::Stream(content@),
            Glyph::Broken(e) => GlyphView::Broken(e),
        }
    }
}

/// What there is to know of one of the 256 codes of a font.
#[derive(Debug)]
pub struct CodePoint {
    pub text: String,
    pub advance: Float,
    pub glyph: Glyph,
}

/// What is seen of a [`CodePoint`].
pub struct CodePointView {
    pub text: Seq<char>,
    pub advance: Float,
    pub glyph: GlyphView,
}

impl View for CodePoint {
    type V = CodePointView;

    open spec fn view(&self) -> CodePointView {
        CodePointView { text: self.text@, advance: self.advance, glyph: self.glyph@ }
    }
}

/// A font whose glyphs are content of their own. All 256 codes are known.
#[derive(Debug)]
pub struct Type3Font {
    codes: Vec<CodePoint>,
    fontname: String,
    font_matrix: Transform,
    resources: PdfDictionary,
}

/// What is seen of a [`Type3Font`].
pub struct FontView {
    pub codes: Seq<CodePointView>,
    pub fontname: Seq<char>,
    pub font_matrix: Transform,
    pub resources: DictView,
}

impl View for Type3Font {
    type V = FontView;

    closed spec fn view(&self) -> FontView {
        FontView {
            codes: types::seen(self.codes@),
            fontname: self.fontname@,
            font_matrix: self.font_matrix,
            resources: self.resources@,
        }
    }
}

impl Type3Font {
    #[verifier::type_invariant]
    spec fn complete(self) -> bool {
        self.codes@.len() == 256
    }

    /// The font with the given 256 codes; none where there are more or fewer.
    pub fn new(
        codes: Vec<CodePoint>,
        fontname: String,
        font_matrix: Transform,
        resources: PdfDictionary,
    ) -> (r: Option<Type3Font>)
        ensures
            match r {
                Some(font) => codes@.len() == 256 && font@ == (FontView {
                    codes: types::seen(codes@),
                    fontname: fontname@,
                    font_matrix,
                    resources: resources@,
                }),
                None => codes@.len() != 256,
            },
    {
        if codes.len() == 256 {
            Some(Type3Font { codes, fontname, font_matrix, resources })
        } else {
            None
        }
    }

    /// What there is to know of a code.
    pub fn code(&self, code: u8) -> (r: &CodePoint)
        ensures
            r@ == self@.codes[code as int],
    {
        proof {
            use_type_invariant(self);
        }
        &self.codes[code as usize]
    }

    pub fn name(&self) -> (r: &String)
        ensures
            r@ == self@.fontname,
    {
        &self.fontname
    }

    /// The matrix from the coordinates of a glyph to those of text.
    pub fn matrix(&self) -> (r: Transform)
        ensures
            r == self@.font_matrix,
    {
        self.font_matrix
    }

    /// The resources of the glyphs.
    pub fn glyph_resources(&self) -> (r: &PdfDictionary)
        ensures
            r@ == self@.resources,
    {
        &self.resources
    }
}

/// What came of reading a font.
#[derive(Debug)]
pub enum FontOutcome {
    Font(Type3Font),
    /// The font is of another kind.
    Other,
    Broken(FileError),
}

/// The font that resources have under a name.
#[derive(Debug)]
pub struct FontEntry {
    pub resources: PdfDictionary,
    pub name: Vec<u8>,
    pub outcome: FontOutcome,
}

/// What is seen of a [`FontEntry`].
pub struct FontEntryView {
    pub resources: DictView,
    pub name: Seq<u8>,
    pub outcome: Result<Option<FontView>, ErrorView>,
}

impl View for FontEntry {
    type V = FontEntryView;

    open spec fn view(&self) -> FontEntryView {
        FontEntryView {
            resources: self.resources@,
            name: self.name@,
            outcome: match self.outcome {
                FontOutcome::Font(font) => Ok(Some(font@)),
                FontOutcome::Other => Ok(None),
                FontOutcome::Broken(e) => Err(ErrorView::Lopdf(e)),
            },
        }
    }
}

/// The font that resources have under a name: the first among the fonts read.
pub open spec fn font_for(fonts: Seq<FontEntryView>, resources: DictView, name: Seq<u8>) -> Result<
    Option<FontView>,
    ErrorView,
>
    decreases fonts.len(),
{
    if fonts.len() == 0 {
        Ok(None)
    } else if fonts[0].resources == resources && fonts[0].name == name {
        fonts[0].outcome
    } else {
        font_for(fonts.skip(1), resources, name)
    }
}

/// What is seen of a font that may be missing.
pub open spec fn seen_font(font: Option<&Type3Font>) -> Option<FontView> {
    match font {
        Some(f) => Some(f@),
        None => None,
    }
}

/// The font that resources have under a name: the first among the fonts read.
pub fn read_font<'a>(fonts: &'a Vec<FontEntry>, resources: &PdfDictionary, name: &Vec<u8>) -> (r:
    Result<Option<&'a Type3Font>, Error>)
    ensures
        match font_for(types::seen(fonts@), resources@, name@) {
            Ok(font) => r matches Ok(found) && seen_font(found) == font,
            Err(e) => r matches Err(error) && error@ == e,
        },
{
    let ghost all = types::seen(fonts@);
    let n: usize = fonts.len();
    assert(all.skip(0) =~= all);
    for i in 0..n
        invariant
            n == fonts@.len(),
            all == types::seen(fonts@),
            font_for(all, resources@, name@) == font_for(all.skip(i as int), resources@, name@),
    {
        assert(all.skip(i as int)[0] == fonts@[i as int]@);
        if fonts[i].resources.same(resources) && same_bytes(&fonts[i].name, name) {
            return match &fonts[i].outcome {
                FontOutcome::Font(font) => Ok(Some(font)),
                FontOutcome::Other => Ok(None),
                FontOutcome::Broken(e) => Err(Error::Lopdf(*e)),
            };
        }
        assert(all.skip(i as int).skip(1) =~= all.skip(i + 1));
    }
    Ok(None)
}

} // verus!

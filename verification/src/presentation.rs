//! The document model: a presentation, its slides, and its style, which
//! holds the fonts that the presentation declares.

use vstd::prelude::*;
use vstd::seq_lib::seq_to_set_is_finite;
use vstd::set_lib::lemma_subset_equality;
use vstd::std_specs::cmp::PartialEqSpecImpl;

verus! {

/// Mathematical model of a [`Slide`].
pub struct SlideView {
    pub name: Seq<char>,
}

/// Mathematical model of a [`FontDescriptor`].
pub struct FontDescriptorView {
    pub name: Seq<char>,
    pub weight: nat,
    pub italic: bool,
}

/// Mathematical model of a [`Font`].
pub struct FontView {
    pub descriptor: FontDescriptorView,
    pub path: Seq<char>,
}

/// Mathematical model of a [`Style`]: its fonts, in the order in which
/// they were given.
pub struct StyleView {
    pub fonts: Seq<FontView>,
}

/// Mathematical model of a [`StyleError`].
pub enum StyleErrorView {
    DuplicateFont(FontDescriptorView),
}

/// Mathematical model of a [`Presentation`].
pub struct PresentationView {
    pub title: Seq<char>,
    pub slides: Seq<SlideView>,
    pub style: StyleView,
}

/// Whether the font at index `at` has the descriptor of an earlier one.
pub open spec fn repeats_earlier(fonts: Seq<FontView>, at: int) -> bool {
    exists|earlier: int|
        0 <= earlier < at && (#[trigger] fonts[earlier]).descriptor == fonts[at].descriptor
}

/// Whether no two of the fonts share a descriptor.
pub open spec fn distinct_descriptors(fonts: Seq<FontView>) -> bool {
    forall|i: int, j: int|
        0 <= i < j < fonts.len() ==> (#[trigger] fonts[i]).descriptor != (
        #[trigger] fonts[j]).descriptor
}

/// The first index at or after `from` whose font has the descriptor of an
/// earlier one, or the number of fonts where there is none.
pub open spec fn first_repeat(fonts: Seq<FontView>, from: int) -> int
    decreases fonts.len() - from,
{
    if from >= fonts.len() {
        fonts.len() as int
    } else if repeats_earlier(fonts, from) {
        from
    } else {
        first_repeat(fonts, from + 1)
    }
}

/// The style that a list of fonts makes: all of them, unless two share a
/// descriptor. The first font that repeats an earlier descriptor is then
/// the one that the error names.
pub open spec fn style_of(fonts: Seq<FontView>) -> Result<StyleView, StyleErrorView> {
    let repeat = first_repeat(fonts, 0);
    if 0 <= repeat < fonts.len() {
        Err(StyleErrorView::DuplicateFont(fonts[repeat].descriptor))
    } else {
        Ok(StyleView { fonts })
    }
}

/// Whether the two styles hold the same fonts, in whatever order: they
/// hold as many, and each font of the first is one of the second.
pub open spec fn same_fonts(first: StyleView, second: StyleView) -> bool {
    &&& first.fonts.len() == second.fonts.len()
    &&& forall|i: int|
        0 <= i < first.fonts.len() ==> second.fonts.contains(#[trigger] first.fonts[i])
}

/// Among fonts of which no two share a descriptor, holding the same fonts
/// goes both ways: where each font of the first style is one of the
/// second, each font of the second is one of the first.
pub proof fn lemma_same_fonts_is_symmetric(first: StyleView, second: StyleView)
    requires
        distinct_descriptors(first.fonts),
        distinct_descriptors(second.fonts),
        same_fonts(first, second),
    ensures
        same_fonts(second, first),
{
    let mine = first.fonts;
    let theirs = second.fonts;
    assert(mine.no_duplicates()) by {
        assert forall|i: int, j: int|
            0 <= i < mine.len() && 0 <= j < mine.len() && i != j implies mine[i] != mine[j] by {
            if i < j {
                assert(mine[i].descriptor != mine[j].descriptor);
            } else {
                assert(mine[j].descriptor != mine[i].descriptor);
            }
        }
    }
    assert(theirs.no_duplicates()) by {
        assert forall|i: int, j: int|
            0 <= i < theirs.len() && 0 <= j < theirs.len() && i != j implies theirs[i]
                != theirs[j] by {
            if i < j {
                assert(theirs[i].descriptor != theirs[j].descriptor);
            } else {
                assert(theirs[j].descriptor != theirs[i].descriptor);
            }
        }
    }
    mine.unique_seq_to_set();
    theirs.unique_seq_to_set();
    seq_to_set_is_finite(mine);
    seq_to_set_is_finite(theirs);
    assert(mine.to_set().subset_of(theirs.to_set())) by {
        assert forall|font: FontView| mine.to_set().contains(font) implies theirs.to_set().contains(
            font,
        ) by {
            let i = choose|i: int| 0 <= i < mine.len() && mine[i] == font;
            assert(theirs.contains(mine[i]));
        }
    }
    lemma_subset_equality(mine.to_set(), theirs.to_set());
    assert forall|i: int| 0 <= i < theirs.len() implies mine.contains(#[trigger] theirs[i]) by {
        assert(mine.to_set().contains(theirs[i]));
    }
}

/// The model of a list of fonts: the model of each, in order.
pub open spec fn font_views(fonts: Seq<Font>) -> Seq<FontView> {
    fonts.map_values(|font: Font| font@)
}

/// The model of a list of slides: the model of each, in order.
pub open spec fn slide_views(slides: Seq<Slide>) -> Seq<SlideView> {
    slides.map_values(|slide: Slide| slide@)
}

/// Why a list of fonts makes no style.
#[derive(Debug, Eq, PartialEq)]
pub enum StyleError {
    DuplicateFont(FontDescriptor),
}

impl View for StyleError {
    type V = StyleErrorView;

    open spec fn view(&self) -> StyleErrorView {
        match self {
            StyleError::DuplicateFont(descriptor) => StyleErrorView::DuplicateFont(descriptor@),
        }
    }
}

/// One slide of a presentation.
#[derive(Debug, Eq, PartialEq)]
pub struct Slide {
    name: String,
}

impl View for Slide {
    type V = SlideView;

    closed spec fn view(&self) -> SlideView {
        SlideView { name: self.name@ }
    }
}

impl Slide {
    pub fn new(name: String) -> (slide: Self)
        ensures
            slide@ == (SlideView { name: name@ }),
    {
        Slide { name }
    }
}

/// What tells one font of a style from another.
#[derive(Debug, Eq, PartialEq, Hash, Clone)]
pub struct FontDescriptor {
    name: String,
    weight: u32,
    italic: bool,
}

impl View for FontDescriptor {
    type V = FontDescriptorView;

    closed spec fn view(&self) -> FontDescriptorView {
        FontDescriptorView { name: self.name@, weight: self.weight as nat, italic: self.italic }
    }
}

impl FontDescriptor {
    /// Whether the two descriptors name the same font.
    fn same_as(&self, other: &FontDescriptor) -> (same: bool)
        ensures
            same == (self@ == other@),
    {
        let same = self.name == other.name && self.weight == other.weight && self.italic
            == other.italic;
        same
    }
}

/// A font: its descriptor, and the file that holds it.
#[derive(Debug, Eq, PartialEq)]
pub struct Font {
    path: String,
    descriptor: FontDescriptor,
}

impl View for Font {
    type V = FontView;

    closed spec fn view(&self) -> FontView {
        FontView { descriptor: self.descriptor@, path: self.path@ }
    }
}

impl Font {
    /// Whether the two fonts have one descriptor and one path.
    fn same_as(&self, other: &Font) -> (same: bool)
        ensures
            same == (self@ == other@),
    {
        let same = self.descriptor.same_as(&other.descriptor) && self.path == other.path;
        same
    }

    pub fn new(name: String, path: String, weight: u32, italic: bool) -> (font: Self)
        ensures
            font@ == (FontView {
                descriptor: FontDescriptorView { name: name@, weight: weight as nat, italic },
                path: path@,
            }),
    {
        Self { path, descriptor: FontDescriptor { name, weight, italic } }
    }

    pub fn path(&self) -> (path: &String)
        ensures
            path@ == self@.path,
    {
        &self.path
    }
}

/// The fonts of a presentation. No two of them share a descriptor.
///
/// Two styles are equal when they hold the same fonts, in whatever order.
#[derive(Debug, Eq)]
pub struct Style {
    fonts: Vec<Font>,
}

impl View for Style {
    type V = StyleView;

    closed spec fn view(&self) -> StyleView {
        StyleView { fonts: font_views(self.fonts@) }
    }
}

impl PartialEq for Style {
    fn eq(&self, other: &Self) -> (equal: bool) {
        if self.fonts.len() != other.fonts.len() {
            return false;
        }
        let mut index: usize = 0;
        while index < self.fonts.len()
            invariant
                index <= self.fonts.len(),
                self.fonts.len() == other.fonts.len(),
                forall|i: int|
                    0 <= i < index ==> other@.fonts.contains(#[trigger] self@.fonts[i]),
            decreases self.fonts.len() - index,
        {
            if !other.holds(&self.fonts[index]) {
                assert(!other@.fonts.contains(self@.fonts[index as int]));
                return false;
            }
            index += 1;
        }
        true
    }
}

impl PartialEqSpecImpl for Style {
    open spec fn obeys_eq_spec() -> bool {
        true
    }

    open spec fn eq_spec(&self, other: &Self) -> bool {
        same_fonts(self@, other@)
    }
}

impl Style {
    /// Whether `font` is one of the fonts of the style.
    fn holds(&self, font: &Font) -> (found: bool)
        ensures
            found == self@.fonts.contains(font@),
    {
        let mut index: usize = 0;
        while index < self.fonts.len()
            invariant
                index <= self.fonts.len(),
                forall|i: int| 0 <= i < index ==> (#[trigger] self@.fonts[i]) != font@,
            decreases self.fonts.len() - index,
        {
            if self.fonts[index].same_as(font) {
                assert(self@.fonts[index as int] == font@);
                return true;
            }
            index += 1;
        }
        false
    }

    #[verifier::type_invariant]
    spec fn descriptors_differ(self) -> bool {
        distinct_descriptors(font_views(self.fonts@))
    }

    /// The style that holds the given fonts, or the error that names the
    /// first descriptor that comes a second time.
    pub fn new(fonts_input: Vec<Font>) -> (made: Result<Self, StyleError>)
        ensures
            match made {
                Ok(style) => style_of(font_views(fonts_input@)) == Ok::<StyleView, StyleErrorView>(
                    style@,
                ),
                Err(error) => style_of(font_views(fonts_input@)) == Err::<
                    StyleView,
                    StyleErrorView,
                >(error@),
            },
    {
        let mut fonts = fonts_input;
        let ghost views = font_views(fonts@);
        let mut checked: usize = 0;
        while checked < fonts.len()
            invariant
                fonts == fonts_input,
                views == font_views(fonts@),
                checked <= fonts.len(),
                first_repeat(views, 0) == first_repeat(views, checked as int),
                distinct_descriptors(views.take(checked as int)),
            decreases fonts.len() - checked,
        {
            let mut earlier: usize = 0;
            let mut repeats = false;
            while earlier < checked
                invariant
                    views == font_views(fonts@),
                    earlier <= checked < fonts.len(),
                    repeats ==> repeats_earlier(views, checked as int),
                    !repeats ==> forall|i: int|
                        0 <= i < earlier ==> (#[trigger] views[i]).descriptor
                            != views[checked as int].descriptor,
                decreases checked - earlier,
            {
                if fonts[earlier].descriptor.same_as(&fonts[checked].descriptor) {
                    assert(views[earlier as int].descriptor == views[checked as int].descriptor);
                    repeats = true;
                }
                earlier += 1;
            }
            if repeats {
                let font = fonts.remove(checked);
                return Err(StyleError::DuplicateFont(font.descriptor));
            }
            assert(distinct_descriptors(views.take(checked + 1))) by {
                assert forall|i: int, j: int| 0 <= i < j < checked + 1 implies (
                #[trigger] views.take(checked + 1)[i]).descriptor != (#[trigger] views.take(
                    checked + 1,
                )[j]).descriptor by {
                    if j < checked {
                        assert(views.take(checked as int)[i].descriptor != views.take(
                            checked as int,
                        )[j].descriptor);
                    }
                }
            }
            checked += 1;
        }
        assert(views.take(checked as int) == views);
        Ok(Self { fonts })
    }

    /// The style without fonts.
    pub fn empty() -> (style: Self)
        ensures
            style@ == (StyleView { fonts: Seq::empty() }),
    {
        let style = Self { fonts: Vec::new() };
        assert(style@.fonts =~= Seq::empty());
        style
    }

    /// The fonts of the style, in the order in which they were given. No
    /// two of them share a descriptor.
    pub fn fonts(&self) -> (fonts: Vec<&Font>)
        ensures
            fonts@.len() == self@.fonts.len(),
            forall|i: int| 0 <= i < fonts@.len() ==> (#[trigger] fonts@[i])@ == self@.fonts[i],
            distinct_descriptors(self@.fonts),
    {
        proof {
            use_type_invariant(self);
        }
        let mut fonts: Vec<&Font> = Vec::new();
        let mut index: usize = 0;
        while index < self.fonts.len()
            invariant
                index <= self.fonts.len(),
                fonts@.len() == index,
                forall|i: int| 0 <= i < index ==> (#[trigger] fonts@[i])@ == self.fonts@[i]@,
            decreases self.fonts.len() - index,
        {
            fonts.push(&self.fonts[index]);
            index += 1;
        }
        fonts
    }
}

/// A presentation: its title, its slides in order, and its style.
#[derive(Debug, Eq, PartialEq)]
pub struct Presentation {
    name: String,
    slides: Vec<Slide>,
    style: Style,
}

impl View for Presentation {
    type V = PresentationView;

    closed spec fn view(&self) -> PresentationView {
        PresentationView {
            title: self.name@,
            slides: slide_views(self.slides@),
            style: self.style@,
        }
    }
}

impl Presentation {
    pub fn new(name: String, slides: Vec<Slide>, style: Style) -> (presentation: Self)
        ensures
            presentation@ == (PresentationView {
                title: name@,
                slides: slide_views(slides@),
                style: style@,
            }),
    {
        Presentation { name, slides, style }
    }

    pub fn style(&self) -> (style: &Style)
        ensures
            style@ == self@.style,
    {
        &self.style
    }
}

} // verus!

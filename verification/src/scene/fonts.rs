//! The fonts the scene can lay text out with.

use vstd::prelude::*;

verus! {

/// A font known to the scene.
#[derive(Debug, Copy, Clone, PartialEq, Eq, Structural, Hash)]
pub enum Font {
    CmuSerifRoman,
    AMSRegular,
    CaligraphicBold,
    CaligraphicRegular,
    FrakturBold,
    FrakturRegular,
    MainBold,
    MainBoldItalic,
    MainItalic,
    MainRegular,
    MathBoldItalic,
    MathItalic,
    SansSerifBold,
    SansSerifItalic,
    SansSerifRegular,
    ScriptRegular,
    Size1Regular,
    Size2Regular,
    Size3Regular,
    Size4Regular,
    TypewriterRegular,
}

impl Default for Font {
    fn default() -> (r: Self)
        ensures
            r == Font::CmuSerifRoman,
    {
        Font::CmuSerifRoman
    }
}

impl Font {
    /// The name a font is known by.
    pub open spec fn name_of(self) -> Seq<char> {
        match self {
            Font::CmuSerifRoman => "Cmu-Serif-Roman"@,
            Font::AMSRegular => "AMS-Regular"@,
            Font::CaligraphicBold => "Caligraphic-Bold"@,
            Font::CaligraphicRegular => "Caligraphic-Regular"@,
            Font::FrakturBold => "Fraktur-Bold"@,
            Font::FrakturRegular => "Fraktur-Regular"@,
            Font::MainBold => "Main-Bold"@,
            Font::MainBoldItalic => "Main-BoldItalic"@,
            Font::MainItalic => "Main-Italic"@,
            Font::MainRegular => "Main-Regular"@,
            Font::MathBoldItalic => "Math-BoldItalic"@,
            Font::MathItalic => "Math-Italic"@,
            Font::SansSerifBold => "SansSerif-Bold"@,
            Font::SansSerifItalic => "SansSerif-Italic"@,
            Font::SansSerifRegular => "SansSerif-Regular"@,
            Font::ScriptRegular => "Script-Regular"@,
            Font::Size1Regular => "Size1-Regular"@,
            Font::Size2Regular => "Size2-Regular"@,
            Font::Size3Regular => "Size3-Regular"@,
            Font::Size4Regular => "Size4-Regular"@,
            Font::TypewriterRegular => "Typewriter-Regular"@,
        }
    }

    /// Every font, each once.
    pub fn iter() -> (r: &'static [Self])
        ensures
            r@ == seq![
                Font::CmuSerifRoman,
                Font::AMSRegular,
                Font::CaligraphicBold,
                Font::CaligraphicRegular,
                Font::FrakturBold,
                Font::FrakturRegular,
                Font::MainBold,
                Font::MainBoldItalic,
                Font::MainItalic,
                Font::MainRegular,
                Font::MathBoldItalic,
                Font::MathItalic,
                Font::SansSerifBold,
                Font::SansSerifItalic,
                Font::SansSerifRegular,
                Font::ScriptRegular,
                Font::Size1Regular,
                Font::Size2Regular,
                Font::Size3Regular,
                Font::Size4Regular,
                Font::TypewriterRegular,
            ],
            forall|f: Font| #[trigger] r@.contains(f),
            r@.no_duplicates(),
    {
        &[
            Self::CmuSerifRoman,
            Self::AMSRegular,
            Self::CaligraphicBold,
            Self::CaligraphicRegular,
            Self::FrakturBold,
            Self::FrakturRegular,
            Self::MainBold,
            Self::MainBoldItalic,
            Self::MainItalic,
            Self::MainRegular,
            Self::MathBoldItalic,
            Self::MathItalic,
            Self::SansSerifBold,
            Self::SansSerifItalic,
            Self::SansSerifRegular,
            Self::ScriptRegular,
            Self::Size1Regular,
            Self::Size2Regular,
            Self::Size3Regular,
            Self::Size4Regular,
            Self::TypewriterRegular,
        ]
    }
}

/// Each font is known by the name of the KaTeX font file it is drawn
/// from (`KaTeX_<name>.ttf`), the serif roman font by `Cmu-Serif-Roman`.
pub proof fn lemma_font_names()
    ensures
        Font::CmuSerifRoman.name_of() == "Cmu-Serif-Roman"@,
        Font::AMSRegular.name_of() == "AMS-Regular"@,
        Font::CaligraphicBold.name_of() == "Caligraphic-Bold"@,
        Font::CaligraphicRegular.name_of() == "Caligraphic-Regular"@,
        Font::FrakturBold.name_of() == "Fraktur-Bold"@,
        Font::FrakturRegular.name_of() == "Fraktur-Regular"@,
        Font::MainBold.name_of() == "Main-Bold"@,
        Font::MainBoldItalic.name_of() == "Main-BoldItalic"@,
        Font::MainItalic.name_of() == "Main-Italic"@,
        Font::MainRegular.name_of() == "Main-Regular"@,
        Font::MathBoldItalic.name_of() == "Math-BoldItalic"@,
        Font::MathItalic.name_of() == "Math-Italic"@,
        Font::SansSerifBold.name_of() == "SansSerif-Bold"@,
        Font::SansSerifItalic.name_of() == "SansSerif-Italic"@,
        Font::SansSerifRegular.name_of() == "SansSerif-Regular"@,
        Font::ScriptRegular.name_of() == "Script-Regular"@,
        Font::Size1Regular.name_of() == "Size1-Regular"@,
        Font::Size2Regular.name_of() == "Size2-Regular"@,
        Font::Size3Regular.name_of() == "Size3-Regular"@,
        Font::Size4Regular.name_of() == "Size4-Regular"@,
        Font::TypewriterRegular.name_of() == "Typewriter-Regular"@,
{
}

/// Different fonts have different names, so a name parses back to the one
/// font it names.
pub proof fn lemma_names_distinct(a: Font, b: Font)
    ensures
        a.name_of() == b.name_of() ==> a == b,
{
    reveal_strlit("Cmu-Serif-Roman");
    reveal_strlit("AMS-Regular");
    reveal_strlit("Caligraphic-Bold");
    reveal_strlit("Caligraphic-Regular");
    reveal_strlit("Fraktur-Bold");
    reveal_strlit("Fraktur-Regular");
    reveal_strlit("Main-Bold");
    reveal_strlit("Main-BoldItalic");
    reveal_strlit("Main-Italic");
    reveal_strlit("Main-Regular");
    reveal_strlit("Math-BoldItalic");
    reveal_strlit("Math-Italic");
    reveal_strlit("SansSerif-Bold");
    reveal_strlit("SansSerif-Italic");
    reveal_strlit("SansSerif-Regular");
    reveal_strlit("Script-Regular");
    reveal_strlit("Size1-Regular");
    reveal_strlit("Size2-Regular");
    reveal_strlit("Size3-Regular");
    reveal_strlit("Size4-Regular");
    reveal_strlit("Typewriter-Regular");
    if a.name_of() == b.name_of() {
        assert(a.name_of().len() == b.name_of().len());
        assert(a.name_of()[3] == b.name_of()[3]);
        assert(a.name_of()[4] == b.name_of()[4]);
    }
}

/// A font whose name is `name` is the only font with that name.
proof fn lemma_named(font: Font, name: Seq<char>)
    requires
        font.name_of() == name,
    ensures
        forall|f: Font| #[trigger] f.name_of() == name ==> f == font,
{
    assert forall|f: Font| #[trigger] f.name_of() == name implies f == font by {
        lemma_names_distinct(f, font);
    }
}

impl TryFrom<String> for Font {
    type Error = String;

    /// Parses a font from its name; an unknown name is an error that quotes
    /// it.
    fn try_from(value: String) -> (r: Result<Self, String>)
        ensures
            r matches Ok(f) ==> f.name_of() == value@,
            forall|f: Font| #[trigger] f.name_of() == value@ ==> r == Ok::<Font, String>(f),
            r is Err ==> forall|f: Font| #[trigger] f.name_of() != value@,
            r matches Err(e) ==> e@ == "Unknown font: "@ + value@,
    {
        if value == String::from_str("Cmu-Serif-Roman") {
            proof {
                lemma_named(Self::CmuSerifRoman, value@);
            }
            Ok(Self::CmuSerifRoman)
        } else if value == String::from_str("AMS-Regular") {
            proof {
                lemma_named(Self::AMSRegular, value@);
            }
            Ok(Self::AMSRegular)
        } else if value == String::from_str("Caligraphic-Bold") {
            proof {
                lemma_named(Self::CaligraphicBold, value@);
            }
            Ok(Self::CaligraphicBold)
        } else if value == String::from_str("Caligraphic-Regular") {
            proof {
                lemma_named(Self::CaligraphicRegular, value@);
            }
            Ok(Self::CaligraphicRegular)
        } else if value == String::from_str("Fraktur-Bold") {
            proof {
                lemma_named(Self::FrakturBold, value@);
            }
            Ok(Self::FrakturBold)
        } else if value == String::from_str("Fraktur-Regular") {
            proof {
                lemma_named(Self::FrakturRegular, value@);
            }
            Ok(Self::FrakturRegular)
        } else if value == String::from_str("Main-Bold") {
            proof {
                lemma_named(Self::MainBold, value@);
            }
            Ok(Self::MainBold)
        } else if value == String::from_str("Main-BoldItalic") {
            proof {
                lemma_named(Self::MainBoldItalic, value@);
            }
            Ok(Self::MainBoldItalic)
        } else if value == String::from_str("Main-Italic") {
            proof {
                lemma_named(Self::MainItalic, value@);
            }
            Ok(Self::MainItalic)
        } else if value == String::from_str("Main-Regular") {
            proof {
                lemma_named(Self::MainRegular, value@);
            }
            Ok(Self::MainRegular)
        } else if value == String::from_str("Math-BoldItalic") {
            proof {
                lemma_named(Self::MathBoldItalic, value@);
            }
            Ok(Self::MathBoldItalic)
        } else if value == String::from_str("Math-Italic") {
            proof {
                lemma_named(Self::MathItalic, value@);
            }
            Ok(Self::MathItalic)
        } else if value == String::from_str("SansSerif-Bold") {
            proof {
                lemma_named(Self::SansSerifBold, value@);
            }
            Ok(Self::SansSerifBold)
        } else if value == String::from_str("SansSerif-Italic") {
            proof {
                lemma_named(Self::SansSerifItalic, value@);
            }
            Ok(Self::SansSerifItalic)
        } else if value == String::from_str("SansSerif-Regular") {
            proof {
                lemma_named(Self::SansSerifRegular, value@);
            }
            Ok(Self::SansSerifRegular)
        } else if value == String::from_str("Script-Regular") {
            proof {
                lemma_named(Self::ScriptRegular, value@);
            }
            Ok(Self::ScriptRegular)
        } else if value == String::from_str("Size1-Regular") {
            proof {
                lemma_named(Self::Size1Regular, value@);
            }
            Ok(Self::Size1Regular)
        } else if value == String::from_str("Size2-Regular") {
            proof {
                lemma_named(Self::Size2Regular, value@);
            }
            Ok(Self::Size2Regular)
        } else if value == String::from_str("Size3-Regular") {
            proof {
                lemma_named(Self::Size3Regular, value@);
            }
            Ok(Self::Size3Regular)
        } else if value == String::from_str("Size4-Regular") {
            proof {
                lemma_named(Self::Size4Regular, value@);
            }
            Ok(Self::Size4Regular)
        } else if value == String::from_str("Typewriter-Regular") {
            proof {
                lemma_named(Self::TypewriterRegular, value@);
            }
            Ok(Self::TypewriterRegular)
        } else {
            proof {
                assert forall|f: Font| #[trigger] f.name_of() != value@ by {
                    match f {
                    Font::CmuSerifRoman => {},
                    Font::AMSRegular => {},
                    Font::CaligraphicBold => {},
                    Font::CaligraphicRegular => {},
                    Font::FrakturBold => {},
                    Font::FrakturRegular => {},
                    Font::MainBold => {},
                    Font::MainBoldItalic => {},
                    Font::MainItalic => {},
                    Font::MainRegular => {},
                    Font::MathBoldItalic => {},
                    Font::MathItalic => {},
                    Font::SansSerifBold => {},
                    Font::SansSerifItalic => {},
                    Font::SansSerifRegular => {},
                    Font::ScriptRegular => {},
                    Font::Size1Regular => {},
                    Font::Size2Regular => {},
                    Font::Size3Regular => {},
                    Font::Size4Regular => {},
                    Font::TypewriterRegular => {},
                    }
                }
            }
            Err(String::from_str("Unknown font: ").concat(value.as_str()))
        }
    }
}

impl vstd::std_specs::convert::TryFromSpecImpl<String> for Font {
    /// The contract of `try_from` above is stated in its own `ensures`.
    open spec fn obeys_try_from_spec() -> bool {
        false
    }

    open spec fn try_from_spec(v: String) -> Result<Self, String> {
        arbitrary()
    }
}

} // verus!

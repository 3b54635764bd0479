use vstd::prelude::*;

verus! {

/// A colour scheme choice for the terminal front end. The palettes
/// themselves are drawn outside the engine; the engine only carries the
/// choice.
#[derive(Clone, Copy, Debug, PartialEq, Eq, Structural)]
pub enum ThemeChoice {
    Frappe,
    Legacy,
    Colorblind,
    HighContrast,
    Microsoft,
    BlackAndWhite,
}

/// The characters a front end draws cells with.
#[derive(Clone, Copy, Debug, PartialEq, Eq, Structural)]
pub struct IconSet {
    pub safe: char,
    pub mine: char,
    pub hidden: char,
    pub flag: char,
    pub unknown_risk: char,
}

#[derive(Clone, Copy, Debug, PartialEq, Eq, Structural)]
pub enum IconSetChoice {
    Ascii,
    Latin1,
    Unicode,
}

impl IconSetChoice {
    /// The character set each choice stands for.
    pub fn iconset(self) -> (r: IconSet)
        ensures
            self == IconSetChoice::Ascii ==> r == (IconSet {
                safe: '_',
                mine: '*',
                hidden: '`',
                flag: 'P',
                unknown_risk: '?',
            }),
            self == IconSetChoice::Latin1 ==> r == (IconSet {
                safe: 'O',
                mine: '\u{a4}',
                hidden: '\u{b7}',
                flag: '\u{b6}',
                unknown_risk: '?',
            }),
            self == IconSetChoice::Unicode ==> r == (IconSet {
                safe: '\u{2713}',
                mine: '\u{2717}',
                hidden: '\u{b7}',
                flag: '\u{2691}',
                unknown_risk: '?',
            }),
    {
        match self {
            Self::Ascii => IconSet {
                safe: '_',
                mine: '*',
                hidden: '`',
                flag: 'P',
                unknown_risk: '?',
            },
            Self::Latin1 => IconSet {
                safe: 'O',
                mine: '\u{a4}',
                hidden: '\u{b7}',
                flag: '\u{b6}',
                unknown_risk: '?',
            },
            Self::Unicode => IconSet {
                safe: '\u{2713}',
                mine: '\u{2717}',
                hidden: '\u{b7}',
                flag: '\u{2691}',
                unknown_risk: '?',
            },
        }
    }
}

} // verus!

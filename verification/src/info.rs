//! The languages the game ships with.

use vstd::prelude::*;

verus! {

/// Supported language.
#[derive(Debug, PartialEq, Eq, Structural, Hash, Clone, Copy)]
pub enum Lang {
    English,
    SpanishLa,
    German,
    French,
    Italian,
    Polish,
    PortugueseBr,
    Japanese,
    Russian,
    ChineseSimple,
    Korean,
    Turkish,
}

/// Number of translation tables in the game's resource file.
pub const V16_LANG_COUNT: usize = 12;

impl Lang {
    /// Name of the file that holds this language's translations, without extension.
    pub open spec fn spec_file_name(self) -> Seq<char> {
        match self {
            Lang::English => "english"@,
            Lang::SpanishLa => "spanish_la"@,
            Lang::German => "german"@,
            Lang::French => "french"@,
            Lang::Italian => "italian"@,
            Lang::Polish => "polish"@,
            Lang::PortugueseBr => "portuguese_br"@,
            Lang::Japanese => "japanese"@,
            Lang::Russian => "russian"@,
            Lang::ChineseSimple => "chinese_simple"@,
            Lang::Korean => "korean"@,
            Lang::Turkish => "turkish"@,
        }
    }

    /// Name of the file that holds this language's translations, without extension.
    pub fn file_name(self) -> (name: &'static str)
        ensures
            name@ == self.spec_file_name(),
    {
        match self {
            Lang::English => "english",
            Lang::SpanishLa => "spanish_la",
            Lang::German => "german",
            Lang::French => "french",
            Lang::Italian => "italian",
            Lang::Polish => "polish",
            Lang::PortugueseBr => "portuguese_br",
            Lang::Japanese => "japanese",
            Lang::Russian => "russian",
            Lang::ChineseSimple => "chinese_simple",
            Lang::Korean => "korean",
            Lang::Turkish => "turkish",
        }
    }
}

/// Order of the translation tables in the resource file of game version 1.1.16.
pub open spec fn v16_lang_order_spec() -> Seq<Lang> {
    seq![
        Lang::SpanishLa,
        Lang::English,
        Lang::Turkish,
        Lang::PortugueseBr,
        Lang::Italian,
        Lang::French,
        Lang::Polish,
        Lang::Korean,
        Lang::ChineseSimple,
        Lang::German,
        Lang::Russian,
        Lang::Japanese,
    ]
}

/// Order of the translation tables in the resource file of game version 1.1.16.
pub fn v16_lang_order() -> (order: Vec<Lang>)
    ensures
        order@ == v16_lang_order_spec(),
{
    let order = vec![
        Lang::SpanishLa,
        Lang::English,
        Lang::Turkish,
        Lang::PortugueseBr,
        Lang::Italian,
        Lang::French,
        Lang::Polish,
        Lang::Korean,
        Lang::ChineseSimple,
        Lang::German,
        Lang::Russian,
        Lang::Japanese,
    ];
    proof {
        assert(order@ =~= v16_lang_order_spec());
    }
    order
}

} // verus!

//! The words that tests are drawn from, and where to get them.

use vstd::prelude::*;

verus! {

/// A list of words to draw tests from.
#[derive(Debug, Clone)]
pub struct Dictionary {
    pub words: Vec<String>,
}

/// A language whose word list Monkeytype publishes.
#[derive(Debug, Clone, Copy, PartialEq, Eq)]
pub enum Languages {
    English,
}

/// The name under which Monkeytype publishes the list of a language.
pub open spec fn language_name(l: Languages) -> Seq<char> {
    match l {
        Languages::English => "english"@,
    }
}

/// The address of the list of a language.
pub open spec fn language_url(l: Languages) -> Seq<char> {
    "https://monkeytype.com/languages/"@ + language_name(l) + ".json"@
}

impl Languages {
    /// The name under which Monkeytype publishes the list of this language.
    pub fn name(&self) -> (r: &'static str)
        ensures
            r@ == language_name(*self),
    {
        match self {
            Languages::English => "english",
        }
    }

    /// The address of the list of this language.
    pub fn to_url(&self) -> (r: String)
        ensures
            r@ == language_url(*self),
    {
        let mut url = "https://monkeytype.com/languages/".to_owned();
        url.append(self.name());
        url.append(".json");
        url
    }
}

/// Where the words of a test come from, as given on the command line: a
/// Monkeytype list by its address, or by its language.
#[derive(Debug, Clone)]
pub struct DictionarySource {
    pub monkeytype_url: Option<String>,
    pub monkeytype_lang: Option<Languages>,
}

/// Where the words of a test come from.
#[derive(Debug, Clone)]
pub enum DictionarySourceEnum {
    MonkeytypeUrl(String),
    MonkeytypeLang(Languages),
}

impl DictionarySource {
    /// The source to use: the address when one is given, else the language
    /// when one is given, else English.
    pub fn to_enum(&self) -> (r: DictionarySourceEnum)
        ensures
            match self.monkeytype_url {
                Some(u) => r matches DictionarySourceEnum::MonkeytypeUrl(v) && v@ == u@,
                None => match self.monkeytype_lang {
                    Some(l) => r == DictionarySourceEnum::MonkeytypeLang(l),
                    None => r == DictionarySourceEnum::MonkeytypeLang(Languages::English),
                },
            },
    {
        if let Some(monkeytype_url) = &self.monkeytype_url {
            DictionarySourceEnum::MonkeytypeUrl(monkeytype_url.clone())
        } else if let Some(monkeytype_lang) = &self.monkeytype_lang {
            DictionarySourceEnum::MonkeytypeLang(*monkeytype_lang)
        } else {
            DictionarySourceEnum::MonkeytypeLang(Languages::English)
        }
    }
}

} // verus!

use vstd::prelude::*;

use crate::data::Error;
use crate::text::{chars_eq, chars_of, push_chars};

verus! {

/// A language that game data may be stored in.
///
/// `Neutral` marks data that is not localised.
#[derive(Debug, Clone, Copy, PartialEq, Eq, Hash, Structural)]
pub enum Language {
    Neutral,
    Japanese,
    English,
    German,
    French,
    ChineseSimplified,
    ChineseTraditional,
    Korean,
}

/// The name of a language, as diagnostics spell it.
pub open spec fn language_name(language: Language) -> Seq<char> {
    match language {
        Language::Neutral => "None"@,
        Language::Japanese => "Japanese"@,
        Language::English => "English"@,
        Language::German => "German"@,
        Language::French => "French"@,
        Language::ChineseSimplified => "ChineseSimplified"@,
        Language::ChineseTraditional => "ChineseTraditional"@,
        Language::Korean => "Korean"@,
    }
}

/// The name of a language, as diagnostics spell it.
pub fn language_name_str(language: Language) -> (out: &'static str)
    ensures
        out@ == language_name(language),
{
    match language {
        Language::Neutral => "None",
        Language::Japanese => "Japanese",
        Language::English => "English",
        Language::German => "German",
        Language::French => "French",
        Language::ChineseSimplified => "ChineseSimplified",
        Language::ChineseTraditional => "ChineseTraditional",
        Language::Korean => "Korean",
    }
}

/// Whether the list holds the language.
pub fn contains_language(languages: &Vec<Language>, language: Language) -> (out: bool)
    ensures
        out == languages@.contains(language),
{
    let mut i: usize = 0;
    while i < languages.len()
        invariant
            i <= languages@.len(),
            forall|j: int| 0 <= j < i ==> languages@[j] != language,
        decreases languages@.len() - i,
    {
        if languages[i] == language {
            assert(languages@[i as int] == language);
            return true;
        }
        i = i + 1;
    }
    false
}

/// The short code used for a language in requests and responses.
pub open spec fn language_code(language: Language) -> Seq<char> {
    match language {
        Language::Neutral => seq!['n', 'o', 'n', 'e'],
        Language::Japanese => seq!['j', 'a'],
        Language::English => seq!['e', 'n'],
        Language::German => seq!['d', 'e'],
        Language::French => seq!['f', 'r'],
        Language::ChineseSimplified => seq!['c', 'h', 's'],
        Language::ChineseTraditional => seq!['c', 'h', 't'],
        Language::Korean => seq!['k', 'r'],
    }
}

/// The language whose code is exactly `code`, if any.
pub open spec fn language_from_code(code: Seq<char>) -> Option<Language> {
    if code == language_code(Language::Neutral) {
        Some(Language::Neutral)
    } else if code == language_code(Language::Japanese) {
        Some(Language::Japanese)
    } else if code == language_code(Language::English) {
        Some(Language::English)
    } else if code == language_code(Language::German) {
        Some(Language::German)
    } else if code == language_code(Language::French) {
        Some(Language::French)
    } else if code == language_code(Language::ChineseSimplified) {
        Some(Language::ChineseSimplified)
    } else if code == language_code(Language::ChineseTraditional) {
        Some(Language::ChineseTraditional)
    } else if code == language_code(Language::Korean) {
        Some(Language::Korean)
    } else {
        None
    }
}

/// Every language code names its language, and no other code names one:
/// reading back the code written for a language gives that language.
pub proof fn lemma_language_code_roundtrip(language: Language)
    ensures
        language_from_code(language_code(language)) == Some(language),
{
    let c = language_code(language);
    assert(c.len() >= 2);
    match language {
        Language::Neutral => {},
        Language::Japanese => {
            assert(c[0] != language_code(Language::Neutral)[0]);
        },
        Language::English => {
            assert(c[0] != language_code(Language::Neutral)[0]);
            assert(c[0] != language_code(Language::Japanese)[0]);
        },
        Language::German => {
            assert(c[0] != language_code(Language::Neutral)[0]);
            assert(c[0] != language_code(Language::Japanese)[0]);
            assert(c[0] != language_code(Language::English)[0]);
        },
        Language::French => {
            assert(c[0] != language_code(Language::Neutral)[0]);
            assert(c[0] != language_code(Language::Japanese)[0]);
            assert(c[0] != language_code(Language::English)[0]);
            assert(c[0] != language_code(Language::German)[0]);
        },
        Language::ChineseSimplified => {
            assert(c[0] != language_code(Language::Neutral)[0]);
            assert(c[0] != language_code(Language::Japanese)[0]);
            assert(c[0] != language_code(Language::English)[0]);
            assert(c[0] != language_code(Language::German)[0]);
            assert(c[0] != language_code(Language::French)[0]);
        },
        Language::ChineseTraditional => {
            assert(c[0] != language_code(Language::Neutral)[0]);
            assert(c[0] != language_code(Language::Japanese)[0]);
            assert(c[0] != language_code(Language::English)[0]);
            assert(c[0] != language_code(Language::German)[0]);
            assert(c[0] != language_code(Language::French)[0]);
            assert(c[2] != language_code(Language::ChineseSimplified)[2]);
        },
        Language::Korean => {
            assert(c[0] != language_code(Language::Neutral)[0]);
            assert(c[0] != language_code(Language::Japanese)[0]);
            assert(c[0] != language_code(Language::English)[0]);
            assert(c[0] != language_code(Language::German)[0]);
            assert(c[0] != language_code(Language::French)[0]);
            assert(c[0] != language_code(Language::ChineseSimplified)[0]);
            assert(c[0] != language_code(Language::ChineseTraditional)[0]);
        },
    }
}

/// The code of a language, as a character vector.
pub fn code_chars(language: Language) -> (out: Vec<char>)
    ensures
        out@ == language_code(language),
{
    let out = match language {
        Language::Neutral => vec!['n', 'o', 'n', 'e'],
        Language::Japanese => vec!['j', 'a'],
        Language::English => vec!['e', 'n'],
        Language::German => vec!['d', 'e'],
        Language::French => vec!['f', 'r'],
        Language::ChineseSimplified => vec!['c', 'h', 's'],
        Language::ChineseTraditional => vec!['c', 'h', 't'],
        Language::Korean => vec!['k', 'r'],
    };
    assert(out@ =~= language_code(language));
    out
}

/// Looks up the language whose code is exactly `code`.
pub fn language_of_code(code: &Vec<char>) -> (out: Option<Language>)
    ensures
        out == language_from_code(code@),
{
    if chars_eq(code, &code_chars(Language::Neutral)) {
        Some(Language::Neutral)
    } else if chars_eq(code, &code_chars(Language::Japanese)) {
        Some(Language::Japanese)
    } else if chars_eq(code, &code_chars(Language::English)) {
        Some(Language::English)
    } else if chars_eq(code, &code_chars(Language::German)) {
        Some(Language::German)
    } else if chars_eq(code, &code_chars(Language::French)) {
        Some(Language::French)
    } else if chars_eq(code, &code_chars(Language::ChineseSimplified)) {
        Some(Language::ChineseSimplified)
    } else if chars_eq(code, &code_chars(Language::ChineseTraditional)) {
        Some(Language::ChineseTraditional)
    } else if chars_eq(code, &code_chars(Language::Korean)) {
        Some(Language::Korean)
    } else {
        None
    }
}

/// A language as it is written in requests: by its short code.
#[derive(Debug, Clone, Copy, PartialEq, Eq, Hash, Structural)]
pub struct LanguageString(pub Language);

impl LanguageString {
    /// Reads a language from its code; any other text is an unknown language.
    pub fn from_str(string: &str) -> (out: Result<LanguageString, Error>)
        ensures
            out matches Ok(l) ==> language_from_code(string@) == Some(l.0),
            out matches Err(e) ==> e matches Error::UnknownLanguage(name) && name@ == string@,
            out is Ok <==> language_from_code(string@) is Some,
    {
        let code = chars_of(string);
        match language_of_code(&code) {
            Some(language) => Ok(LanguageString(language)),
            None => Err(Error::UnknownLanguage(string.to_owned())),
        }
    }

    /// The code of this language.
    pub fn to_string(&self) -> (out: String)
        ensures
            out@ == language_code(self.0),
    {
        let mut out = String::new();
        push_chars(&mut out, &code_chars(self.0));
        out
    }

    pub fn new(language: Language) -> (out: LanguageString)
        ensures
            out.0 == language,
    {
        LanguageString(language)
    }

    pub fn language(&self) -> (out: Language)
        ensures
            out == self.0,
    {
        self.0
    }
}

} // verus!

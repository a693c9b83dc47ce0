use vstd::prelude::*;

use crate::language::{language_from_code, Language, LanguageString};
use vstd::string::StringExecFns;

verus! {

/// The sheet and language that a declaration of a search table names.
#[derive(Debug)]
pub struct TableConfig {
    pub sheet: String,
    pub language: Language,
}

pub open spec fn no_arguments_message() -> Seq<char> {
    "no arguments specified"@
}

pub open spec fn no_sheet_message() -> Seq<char> {
    "no sheet specified"@
}

pub open spec fn unknown_sheet_message(sheet: Seq<char>) -> Seq<char> {
    "unknown sheet "@ + sheet
}

pub open spec fn unknown_parameter_message(key: Seq<char>) -> Seq<char> {
    "unknown parameter "@ + key
}

pub open spec fn unknown_language_message(code: Seq<char>) -> Seq<char> {
    "unknown language \""@ + code + "\""@
}

/// The sheet and language after the given parameters, read in order from an
/// empty sheet name and the neutral language; the first bad parameter wins.
pub open spec fn read_parameters(
    parameters: Seq<(Seq<char>, Seq<char>)>,
    sheets: Seq<Seq<char>>,
) -> Result<(Seq<char>, Language), Seq<char>>
    decreases parameters.len(),
{
    if parameters.len() == 0 {
        Ok((Seq::empty(), Language::Neutral))
    } else {
        match read_parameters(parameters.drop_last(), sheets) {
            Err(e) => Err(e),
            Ok((sheet, language)) => {
                let (key, value) = parameters.last();
                if key == "sheet"@ {
                    if sheets.contains(value) {
                        Ok((value, language))
                    } else {
                        Err(unknown_sheet_message(value))
                    }
                } else if key == "language"@ {
                    match language_from_code(value) {
                        Some(l) => Ok((sheet, l)),
                        None => Err(unknown_language_message(value)),
                    }
                } else {
                    Err(unknown_parameter_message(key))
                }
            },
        }
    }
}

/// The configuration that a declaration's parameters give, or why they give
/// none.
pub open spec fn table_config_spec(
    parameters: Seq<(Seq<char>, Seq<char>)>,
    sheets: Seq<Seq<char>>,
) -> Result<(Seq<char>, Language), Seq<char>> {
    if parameters.len() == 0 {
        Err(no_arguments_message())
    } else {
        match read_parameters(parameters, sheets) {
            Err(e) => Err(e),
            Ok((sheet, language)) => if sheet.len() == 0 {
                Err(no_sheet_message())
            } else {
                Ok((sheet, language))
            },
        }
    }
}

pub open spec fn pairs_view(pairs: Seq<(String, String)>) -> Seq<(Seq<char>, Seq<char>)> {
    Seq::new(pairs.len(), |i: int| (pairs[i].0@, pairs[i].1@))
}

pub open spec fn names_view(names: Seq<String>) -> Seq<Seq<char>> {
    Seq::new(names.len(), |i: int| names[i]@)
}

fn has_sheet(sheets: &Vec<String>, name: &String) -> (out: bool)
    ensures
        out == names_view(sheets@).contains(name@),
{
    let mut i: usize = 0;
    while i < sheets.len()
        invariant
            i <= sheets@.len(),
            forall|j: int| 0 <= j < i ==> #[trigger] sheets@[j]@ != name@,
        decreases sheets@.len() - i,
    {
        if sheets[i] == *name {
            assert(names_view(sheets@)[i as int] == name@);
            return true;
        }
        i = i + 1;
    }
    assert forall|j: int| 0 <= j < names_view(sheets@).len() implies #[trigger] names_view(sheets@)[j] != name@ by {
        assert(names_view(sheets@)[j] == sheets@[j]@);
    }
    false
}

/// Once a prefix of the parameters is refused, the parameters are refused
/// the same way.
proof fn lemma_parameters_failure(parameters: Seq<(Seq<char>, Seq<char>)>, sheets: Seq<Seq<char>>, k: int)
    requires
        0 <= k <= parameters.len(),
        read_parameters(parameters.take(k), sheets) is Err,
    ensures
        read_parameters(parameters, sheets) == read_parameters(parameters.take(k), sheets),
    decreases parameters.len(),
{
    if k < parameters.len() {
        assert(parameters.drop_last().take(k) =~= parameters.take(k));
        lemma_parameters_failure(parameters.drop_last(), sheets, k);
    } else {
        assert(parameters.take(k) =~= parameters);
    }
}

/// Reads the parameters of a search table's declaration, as `key=value`
/// pairs in order: `sheet` names one of `sheets`, `language` a language
/// code. There must be at least one parameter, and a sheet.
pub fn table_config(parameters: &Vec<(String, String)>, sheets: &Vec<String>) -> (out: Result<TableConfig, String>)
    ensures
        match table_config_spec(pairs_view(parameters@), names_view(sheets@)) {
            Ok((sheet, language)) => out matches Ok(c) && c.sheet@ == sheet && c.language == language,
            Err(m) => out matches Err(e) && e@ == m,
        },
{
    let ghost pv = pairs_view(parameters@);
    let ghost sv = names_view(sheets@);
    if parameters.len() == 0 {
        return Err("no arguments specified".to_owned());
    }
    let mut sheet = String::new();
    let mut language = Language::Neutral;
    let mut i: usize = 0;
    assert(pv.take(0) =~= Seq::<(Seq<char>, Seq<char>)>::empty());
    while i < parameters.len()
        invariant
            i <= parameters@.len(),
            pv == pairs_view(parameters@),
            sv == names_view(sheets@),
            read_parameters(pv.take(i as int), sv) == Ok::<(Seq<char>, Language), Seq<char>>((sheet@, language)),
        decreases parameters@.len() - i,
    {
        let key = &parameters[i].0;
        let value = &parameters[i].1;
        proof {
            assert(pv.take(i + 1).drop_last() =~= pv.take(i as int));
            assert(pv.take(i + 1).last() == (key@, value@));
        }
        if *key == "sheet".to_owned() {
            if has_sheet(sheets, value) {
                sheet = value.clone();
            } else {
                let mut message = "unknown sheet ".to_owned();
                message.append(value.as_str());
                proof {
                    assert(key@ == "sheet"@);
                    assert(!sv.contains(value@));
                    assert(read_parameters(pv.take(i + 1), sv) == Err::<(Seq<char>, Language), Seq<char>>(
                        unknown_sheet_message(value@),
                    ));
                    lemma_parameters_failure(pv, sv, i + 1);
                }
                return Err(message);
            }
        } else if *key == "language".to_owned() {
            match LanguageString::from_str(value.as_str()) {
                Ok(l) => {
                    language = l.language();
                },
                Err(_) => {
                    let mut message = "unknown language \"".to_owned();
                    message.append(value.as_str());
                    message.append("\"");
                    proof {
                        lemma_parameters_failure(pv, sv, i + 1);
                    }
                    return Err(message);
                },
            }
        } else {
            let mut message = "unknown parameter ".to_owned();
            message.append(key.as_str());
            proof {
                lemma_parameters_failure(pv, sv, i + 1);
            }
            return Err(message);
        }
        i = i + 1;
    }
    assert(pv.take(parameters@.len() as int) =~= pv);
    if sheet.as_str().is_empty() {
        return Err("no sheet specified".to_owned());
    }
    Ok(TableConfig { sheet, language })
}

} // verus!

use vstd::prelude::*;

verus! {

/// Metadata from a FOMOD `info.xml` file.
#[derive(Debug, Clone)]
pub struct FomodInfo {
    pub name: Option<String>,
    pub author: Option<String>,
    pub version: Option<String>,
    pub description: Option<String>,
    pub website: Option<String>,
    pub id: Option<String>,
}

/// The revision a generated config records: an explicit one if given, else
/// the `info.xml` version, else the `info.xml` name, else the module name.
pub open spec fn chosen_rev(
    explicit: Option<Seq<char>>,
    info: Option<(Option<Seq<char>>, Option<Seq<char>>)>,
    module_name: Seq<char>,
) -> Seq<char> {
    match explicit {
        Some(r) => r,
        None => match info {
            Some((Some(v), _)) => v,
            Some((None, Some(n))) => n,
            _ => module_name,
        },
    }
}

/// The optional text as a character sequence.
pub open spec fn opt_text(s: Option<String>) -> Option<Seq<char>> {
    match s {
        Some(t) => Some(t@),
        None => None,
    }
}

/// The version and name that `info` carries, as character sequences.
pub open spec fn info_version_name(info: Option<FomodInfo>) -> Option<(Option<Seq<char>>, Option<Seq<char>>)> {
    match info {
        Some(i) => Some((opt_text(i.version), opt_text(i.name))),
        None => None,
    }
}

/// Picks the revision for a generated config: `explicit` if given, else the
/// version from `info`, else its name, else `module_name`.
pub fn resolve_rev(explicit: Option<String>, info: Option<FomodInfo>, module_name: &str) -> (rev: String)
    ensures
        rev@ == chosen_rev(opt_text(explicit), info_version_name(info), module_name@),
{
    match explicit {
        Some(r) => r,
        None => match info {
            Some(i) => match i.version {
                Some(v) => v,
                None => match i.name {
                    Some(n) => n,
                    None => String::from_str(module_name),
                },
            },
            None => String::from_str(module_name),
        },
    }
}

} // verus!

verus! {

/// The revision a config records: an explicit revision always; without one,
/// the `info.xml` version when there is one, else its name, else the module
/// name.
pub proof fn lemma_rev_choice(
    explicit: Option<Seq<char>>,
    info: Option<(Option<Seq<char>>, Option<Seq<char>>)>,
    module_name: Seq<char>,
)
    ensures
        explicit matches Some(r) ==> chosen_rev(explicit, info, module_name) == r,
        explicit is None && info is None ==> chosen_rev(explicit, info, module_name) == module_name,
        explicit is None ==> (info matches Some((Some(v), _)) ==> chosen_rev(explicit, info, module_name) == v),
        explicit is None ==> (info matches Some((None, Some(n))) ==> chosen_rev(explicit, info, module_name) == n),
        explicit is None ==> (info matches Some((None, None)) ==> chosen_rev(explicit, info, module_name)
            == module_name),
{
}

} // verus!

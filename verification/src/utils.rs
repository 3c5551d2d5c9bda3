use vstd::prelude::*;

verus! {

/// The names that the channels go by when nothing better is known: one per
/// position of a three-by-three square, row by row.
pub open spec fn default_names_spec() -> Seq<Seq<char>> {
    seq![
        "Trait_0_0"@,
        "Trait_0_1"@,
        "Trait_0_2"@,
        "Trait_1_0"@,
        "Trait_1_1"@,
        "Trait_1_2"@,
        "Trait_2_0"@,
        "Trait_2_1"@,
        "Trait_2_2"@,
    ]
}

/// The names of the channels in the first set of examples.
pub open spec fn semantic_names_spec() -> Seq<Seq<char>> {
    seq![
        "Energy"@,
        "Confidence"@,
        "Cooperation"@,
        "Aggression"@,
        "Stability"@,
        "Mobility"@,
        "Resource"@,
        "Age"@,
        "Adaptability"@,
    ]
}

/// The names of the channels in the later examples.
pub open spec fn semantic_traits_spec() -> Seq<Seq<char>> {
    seq![
        "Energy"@,
        "Social"@,
        "Color/Team"@,
        "Aggression"@,
        "Stability"@,
        "Mobility"@,
        "Resource"@,
        "Age"@,
        "Adaptability"@,
    ]
}

/// What a list of strings spells.
pub open spec fn spelled(names: Seq<String>) -> Seq<Seq<char>> {
    names.map_values(|name: String| name@)
}

/// The default channel names, as a fixed array.
pub fn default_trait_names() -> (names: [String; 9])
    ensures
        spelled(names@) == default_names_spec(),
{
    let names: [String; 9] = [
        "Trait_0_0".to_string(),
        "Trait_0_1".to_string(),
        "Trait_0_2".to_string(),
        "Trait_1_0".to_string(),
        "Trait_1_1".to_string(),
        "Trait_1_2".to_string(),
        "Trait_2_0".to_string(),
        "Trait_2_1".to_string(),
        "Trait_2_2".to_string(),
    ];
    assert(spelled(names@) =~= default_names_spec());
    names
}

/// The channel names of the first set of examples, as a fixed array.
pub fn semantic_trait_names() -> (names: [String; 9])
    ensures
        spelled(names@) == semantic_names_spec(),
{
    let names: [String; 9] = [
        "Energy".to_string(),
        "Confidence".to_string(),
        "Cooperation".to_string(),
        "Aggression".to_string(),
        "Stability".to_string(),
        "Mobility".to_string(),
        "Resource".to_string(),
        "Age".to_string(),
        "Adaptability".to_string(),
    ];
    assert(spelled(names@) =~= semantic_names_spec());
    names
}

/// The default channel names, as a list.
pub fn default_traits_names() -> (names: Vec<String>)
    ensures
        spelled(names@) == default_names_spec(),
{
    let mut names: Vec<String> = Vec::with_capacity(9);
    names.push("Trait_0_0".to_string());
    names.push("Trait_0_1".to_string());
    names.push("Trait_0_2".to_string());
    names.push("Trait_1_0".to_string());
    names.push("Trait_1_1".to_string());
    names.push("Trait_1_2".to_string());
    names.push("Trait_2_0".to_string());
    names.push("Trait_2_1".to_string());
    names.push("Trait_2_2".to_string());
    assert(spelled(names@) =~= default_names_spec());
    names
}

/// The channel names of the later examples, as a list.
pub fn semantic_traits_names() -> (names: Vec<String>)
    ensures
        spelled(names@) == semantic_traits_spec(),
{
    let mut names: Vec<String> = Vec::with_capacity(9);
    names.push("Energy".to_string());
    names.push("Social".to_string());
    names.push("Color/Team".to_string());
    names.push("Aggression".to_string());
    names.push("Stability".to_string());
    names.push("Mobility".to_string());
    names.push("Resource".to_string());
    names.push("Age".to_string());
    names.push("Adaptability".to_string());
    assert(spelled(names@) =~= semantic_traits_spec());
    names
}

} // verus!

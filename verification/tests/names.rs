use trait_ac::utils::default_trait_names;
use trait_ac::utils::default_traits_names;
use trait_ac::utils::semantic_trait_names;
use trait_ac::utils::semantic_traits_names;

#[test]
fn test_trait_names() {
    let names = default_trait_names();
    assert_eq!(names.len(), 9);
    assert_eq!(names[0], "Trait_0_0");
    assert_eq!(names[8], "Trait_2_2");
}

#[test]
fn test_traits_names() {
    let names = default_traits_names();
    assert_eq!(names.len(), 9);
    assert_eq!(names[0], "Trait_0_0");
    assert_eq!(names[8], "Trait_2_2");
}

#[test]
fn semantic_names_are_the_documented_ones() {
    let first = semantic_trait_names();
    assert_eq!(first.len(), 9);
    assert_eq!(first[0], "Energy");
    assert_eq!(first[1], "Confidence");
    assert_eq!(first[2], "Cooperation");
    assert_eq!(first[8], "Adaptability");
    let later = semantic_traits_names();
    assert_eq!(later.len(), 9);
    assert_eq!(later[1], "Social");
    assert_eq!(later[2], "Color/Team");
    assert_eq!(later[5], "Mobility");
}

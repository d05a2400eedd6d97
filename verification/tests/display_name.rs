use agui_core::manager::display_name::display_name_of;

#[test]
fn a_path_shortens_to_its_last_segment() {
    assert_eq!(display_name_of("agui_core::plugin::InheritancePlugin"), "InheritancePlugin");
    assert_eq!(display_name_of("Plain"), "Plain");
    assert_eq!(display_name_of(""), "");
}

#[test]
fn each_generic_part_shortens_on_its_own() {
    assert_eq!(display_name_of("a::b::Wrapper<c::Inner>"), "Wrapper<Inner>");
    assert_eq!(display_name_of("a::Outer<b::Middle<c::Leaf>>"), "Outer<Middle<Leaf>>");
}

#[test]
fn only_the_last_argument_of_a_list_survives() {
    // Parts are split at `<` alone, so a list keeps what follows its last `::`.
    assert_eq!(display_name_of("a::Pair<b::Left, c::Right>"), "Pair<Right>");
}

#[test]
fn the_last_separator_is_found_from_the_end() {
    assert_eq!(display_name_of("a:::b"), "b");
    assert_eq!(display_name_of("a::b::"), "");
    assert_eq!(display_name_of("std::Vec<u8>"), "Vec<u8>");
}

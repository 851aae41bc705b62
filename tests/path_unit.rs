use ry::{
    char_is, matches_pattern, next_special_char_is, next_specific_special_char,
    parse_array_indexing_operation, split_child_filter, ArrayIndices, PathElem,
};

#[test]
fn test_char_is() {
    assert_eq!(PathElem::Dot, char_is('.'));
    assert_eq!(PathElem::Quote, char_is('"'));
    assert_eq!(PathElem::ArrayOpen, char_is('['));
    assert_eq!(PathElem::ArrayClose, char_is(']'));
    assert_eq!(PathElem::ParenOpen, char_is('('));
    assert_eq!(PathElem::ParenClose, char_is(')'));
    assert_eq!(PathElem::Char, char_is('a'));
}

#[test]
fn test_next_special_char_is() {
    assert_eq!((PathElem::Dot, 4), next_special_char_is("asdf.asdf"));
    assert_eq!((PathElem::Quote, 4), next_special_char_is("asdf\"asdf"));
    assert_eq!((PathElem::ArrayOpen, 4), next_special_char_is("asdf[asdf"));
    assert_eq!((PathElem::ArrayClose, 4), next_special_char_is("asdf]asdf"));
    assert_eq!((PathElem::ParenOpen, 4), next_special_char_is("asdf(asdf"));
    assert_eq!((PathElem::ParenClose, 4), next_special_char_is("asdf)asdf"));
    assert_eq!((PathElem::EOW, 8), next_special_char_is("asdfasdf"));
}

#[test]
fn test_next_specific_special_char_is() {
    assert_eq!((true, 4), next_specific_special_char("asdf.asdf", PathElem::Dot));
    assert_eq!((false, 0), next_specific_special_char("asdf.asdf", PathElem::Quote));
    assert_eq!((false, 0), next_specific_special_char("asdfasdf", PathElem::Dot));
    assert_eq!((true, 4), next_specific_special_char("asdf\"asdf", PathElem::Quote));
    assert_eq!((false, 0), next_specific_special_char("asdf\"asdf", PathElem::Dot));
    assert_eq!((false, 0), next_specific_special_char("asdfasdf", PathElem::Quote));
    assert_eq!((true, 4), next_specific_special_char("asdf[asdf", PathElem::ArrayOpen));
    assert_eq!((true, 4), next_specific_special_char("asdf(asdf", PathElem::ParenOpen));
    assert_eq!((false, 0), next_specific_special_char("asdf[asdf", PathElem::Dot));
    assert_eq!((false, 0), next_specific_special_char("asdfasdf", PathElem::ArrayOpen));
    assert_eq!((true, 4), next_specific_special_char("asdf]asdf", PathElem::ArrayClose));
    assert_eq!((false, 0), next_specific_special_char("asdfasdf", PathElem::ParenOpen));
    assert_eq!((true, 4), next_specific_special_char("asdf)asdf", PathElem::ParenClose));
    assert_eq!((false, 0), next_specific_special_char("asdf]asdf", PathElem::Dot));
    assert_eq!((false, 0), next_specific_special_char("asdfasdf", PathElem::ArrayClose));
    assert_eq!((false, 0), next_specific_special_char("asdfasdf", PathElem::ParenClose));
    assert_eq!((true, 0), next_specific_special_char("asdfasdf", PathElem::Char));
    assert_eq!((false, 0), next_specific_special_char("asdfasdf", PathElem::Dot));
    assert_eq!((true, 8), next_specific_special_char("asdfasdf", PathElem::EOW));
}

#[test]
fn test_matches_pattern_identical() {
    assert!(matches_pattern("rusty", "rusty"));
}

#[test]
fn test_matches_pattern_splat() {
    assert!(matches_pattern("rusty", "r*"));
}

#[test]
fn test_matches_pattern_wildcard() {
    assert!(matches_pattern("rusty", "**"));
}

#[test]
fn test_matches_pattern_no() {
    assert!(!matches_pattern("rusty", "smooth"));
}

#[test]
fn test_split_child_filter_valid() {
    let split_filter = split_child_filter(".==crabby").unwrap();
    assert_eq!(split_filter[0], ".");
    assert_eq!(split_filter[1], "crabby");
}

#[test]
fn test_split_child_filter_invalid() {
    let split_filter = split_child_filter(".=crabby");
    assert_eq!(true, split_filter.is_err());
}

#[test]
fn test_parse_array_indexing_operation_wildcard() {
    assert_eq!(ArrayIndices::Star, parse_array_indexing_operation("*").unwrap());
}

#[test]
fn test_parse_array_indexing_operation_number_path_elem() {
    assert_eq!(ArrayIndices::Indices(vec![4]), parse_array_indexing_operation("4").unwrap());
}

#[test]
fn test_parse_array_indexing_operation_fails_invalid() {
    assert_eq!(true, parse_array_indexing_operation("a").is_err());
}

#[test]
fn matches_pattern_trims_every_trailing_star() {
    assert!(matches_pattern("rusty", "ru***"));
    assert!(matches_pattern("", "*"));
    assert!(!matches_pattern("rusty", "rx*"));
    assert!(!matches_pattern("ru", "rusty*"));
    assert!(!matches_pattern("rusty", "rust"));
}

#[test]
fn split_child_filter_needs_exactly_one_separator() {
    assert!(split_child_filter("a==b==c").is_err());
    assert!(split_child_filter("abc").is_err());
    let parts = split_child_filter("a===b").unwrap();
    assert_eq!(parts[0], "a");
    assert_eq!(parts[1], "=b");
    assert_eq!(
        split_child_filter("x").unwrap_err().message(),
        "invalid child filter: `x`"
    );
}

#[test]
fn parse_array_indexing_operation_reads_numbers() {
    assert_eq!(ArrayIndices::Indices(vec![10]), parse_array_indexing_operation("10").unwrap());
    assert_eq!(ArrayIndices::Indices(vec![7]), parse_array_indexing_operation("+7").unwrap());
    assert_eq!(ArrayIndices::Indices(vec![0]), parse_array_indexing_operation("000").unwrap());
    assert!(parse_array_indexing_operation("").is_err());
    assert!(parse_array_indexing_operation("+").is_err());
    assert!(parse_array_indexing_operation("-1").is_err());
    assert!(parse_array_indexing_operation(" 1").is_err());
    assert_eq!(
        ArrayIndices::Indices(vec![usize::MAX]),
        parse_array_indexing_operation(&usize::MAX.to_string()).unwrap()
    );
    assert!(parse_array_indexing_operation("99999999999999999999999").is_err());
    assert_eq!(
        parse_array_indexing_operation("x").unwrap_err().message(),
        "unable to parse array index `x`"
    );
}

use libradicl::lib_name;

#[test]
fn lib_name_is_libradicl() {
    assert_eq!(lib_name(), "libradicl");
}

use exspec_lang::lang_python::extract_mock_class_name;

#[test]
fn lib_mock_class_name_extraction() {
    assert_eq!(extract_mock_class_name("mock_db"), "db");
    assert_eq!(
        extract_mock_class_name("mock_payment_service"),
        "payment_service"
    );
    assert_eq!(extract_mock_class_name("my_mock"), "my_mock");
}


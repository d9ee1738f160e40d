use exspec_lang::lang_rust::extract_mock_class_name;

#[test]
fn mock_class_name_extraction() {
    // TC-11: mock class name stripping
    assert_eq!(extract_mock_class_name("mock_service"), "service");
    assert_eq!(extract_mock_class_name("mock_db"), "db");
    assert_eq!(extract_mock_class_name("service"), "service");
    assert_eq!(extract_mock_class_name("mockService"), "Service");
}


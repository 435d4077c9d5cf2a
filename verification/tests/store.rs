use credlock::commands::{
    add_credentials, default_container_name, get, init, list, remove_credentials,
};
use credlock::error::StoreError;
use credlock::store::StoreState;

#[test]
fn default_container_name_is_fixed() {
    assert_eq!(default_container_name(), "aws-credlock");
}

#[test]
fn init_twice_reports_container_exists() {
    let mut store = StoreState::new();
    let name = String::from("aws-credlock");
    assert_eq!(init(&mut store, &name), Ok(()));
    assert_eq!(init(&mut store, &name), Err(StoreError::ContainerExists));
}

#[test]
fn operations_on_missing_container_report_not_found() {
    let mut store = StoreState::new();
    let name = String::from("aws-credlock");
    let profile = String::from("work");
    assert_eq!(list(&store, &name), Err(StoreError::NotFound));
    assert_eq!(get(&store, &name, &profile), Err(StoreError::NotFound));
    assert_eq!(
        add_credentials(&mut store, &name, &profile, &String::from("k"), &String::from("s")),
        Err(StoreError::NotFound)
    );
    assert_eq!(remove_credentials(&mut store, &name, &profile), Err(StoreError::NotFound));
}

#[test]
fn add_then_get_returns_matching_document() {
    let mut store = StoreState::new();
    let name = String::from("aws-credlock");
    let profile = String::from("work");
    init(&mut store, &name).unwrap();
    add_credentials(&mut store, &name, &profile, &String::from("key"), &String::from("secret"))
        .unwrap();
    let docs = get(&store, &name, &profile).unwrap();
    assert_eq!(docs.len(), 1);
    assert_eq!(
        docs[0],
        "{\n  \"Version\": 1,\n  \"AccessKeyId\": \"key\",\n  \"SecretAccessKey\": \"secret\"\n}"
    );
}

#[test]
fn add_then_remove_then_get_returns_nothing() {
    let mut store = StoreState::new();
    let name = String::from("aws-credlock");
    let profile = String::from("work");
    init(&mut store, &name).unwrap();
    add_credentials(&mut store, &name, &profile, &String::from("key"), &String::from("secret"))
        .unwrap();
    assert_eq!(remove_credentials(&mut store, &name, &profile), Ok(()));
    let docs = get(&store, &name, &profile).unwrap();
    assert_eq!(docs.len(), 0);
}

#[test]
fn remove_nonexistent_profile_reports_not_found() {
    let mut store = StoreState::new();
    let name = String::from("aws-credlock");
    init(&mut store, &name).unwrap();
    add_credentials(&mut store, &name, &String::from("work"), &String::from("k"), &String::from("s"))
        .unwrap();
    let before = list(&store, &name).unwrap();
    assert_eq!(
        remove_credentials(&mut store, &name, &String::from("ghost")),
        Err(StoreError::NotFound)
    );
    assert_eq!(list(&store, &name).unwrap(), before);
}

#[test]
fn get_of_unknown_profile_is_empty_success() {
    let mut store = StoreState::new();
    let name = String::from("aws-credlock");
    init(&mut store, &name).unwrap();
    assert_eq!(get(&store, &name, &String::from("nobody")), Ok(Vec::new()));
}

#[test]
fn list_and_get_are_idempotent() {
    let mut store = StoreState::new();
    let name = String::from("aws-credlock");
    init(&mut store, &name).unwrap();
    add_credentials(&mut store, &name, &String::from("a"), &String::from("k1"), &String::from("s1"))
        .unwrap();
    add_credentials(&mut store, &name, &String::from("b"), &String::from("k2"), &String::from("s2"))
        .unwrap();
    assert_eq!(list(&store, &name).unwrap(), list(&store, &name).unwrap());
    assert_eq!(
        get(&store, &name, &String::from("a")).unwrap(),
        get(&store, &name, &String::from("a")).unwrap()
    );
    assert_eq!(list(&store, &name).unwrap(), vec!["a".to_string(), "b".to_string()]);
}

#[test]
fn duplicate_labels_are_kept_and_removed_together() {
    let mut store = StoreState::new();
    let name = String::from("aws-credlock");
    let profile = String::from("work");
    init(&mut store, &name).unwrap();
    add_credentials(&mut store, &name, &profile, &String::from("k1"), &String::from("s1"))
        .unwrap();
    add_credentials(&mut store, &name, &profile, &String::from("k2"), &String::from("s2"))
        .unwrap();
    assert_eq!(list(&store, &name).unwrap(), vec!["work".to_string(), "work".to_string()]);
    let docs = get(&store, &name, &profile).unwrap();
    assert_eq!(docs.len(), 2);
    assert!(docs[0].contains("\"AccessKeyId\": \"k1\""));
    assert!(docs[1].contains("\"AccessKeyId\": \"k2\""));
    assert_eq!(remove_credentials(&mut store, &name, &profile), Ok(()));
    assert_eq!(get(&store, &name, &profile).unwrap().len(), 0);
}

#[test]
fn list_caps_at_one_hundred_records() {
    let mut store = StoreState::new();
    let name = String::from("aws-credlock");
    init(&mut store, &name).unwrap();
    for i in 0..105 {
        let profile = format!("p{}", i);
        add_credentials(&mut store, &name, &profile, &String::from("k"), &String::from("s"))
            .unwrap();
    }
    assert_eq!(list(&store, &name).unwrap().len(), 100);
}

#[test]
fn os_status_codes_classify_into_error_kinds() {
    assert_eq!(StoreError::from_os_status(-25296), StoreError::ContainerExists);
    assert_eq!(StoreError::from_os_status(-25294), StoreError::NotFound);
    assert_eq!(StoreError::from_os_status(-25300), StoreError::NotFound);
    assert_eq!(StoreError::from_os_status(-25293), StoreError::PermissionDenied);
    assert_eq!(StoreError::from_os_status(-26275), StoreError::DecodeFailure);
    assert_eq!(StoreError::from_os_status(-1), StoreError::BackendFailure);
    assert_eq!(StoreError::from_os_status(0), StoreError::BackendFailure);
}

#[test]
fn error_messages_name_each_kind() {
    assert_eq!(
        StoreError::ContainerExists.message(),
        "a container with this name already exists"
    );
    assert_eq!(StoreError::NotFound.message(), "no such container or record");
    assert_eq!(
        StoreError::PermissionDenied.message(),
        "the system denied access to the secret store"
    );
    assert_eq!(StoreError::DecodeFailure.message(), "the stored secret is not valid text");
    assert_eq!(StoreError::BackendFailure.message(), "the secret store reported a failure");
}

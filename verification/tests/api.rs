use dabox::api::{parse_entity_uid, u64_to_string, ApiError, ApiUser};
use dabox::prelude::{DaDirectorySid, DaError, Entity, MemRepository};

#[test]
fn parse_entity_uid_accepts_decimal_values() {
    assert_eq!(parse_entity_uid(b"0"), Some(0));
    assert_eq!(parse_entity_uid(b"123"), Some(123));
    assert_eq!(parse_entity_uid(b"+42"), Some(42));
    assert_eq!(parse_entity_uid(b"007"), Some(7));
    assert_eq!(parse_entity_uid(b"18446744073709551615"), Some(u64::MAX));
}

#[test]
fn parse_entity_uid_rejects_everything_else() {
    assert_eq!(parse_entity_uid(b""), None);
    assert_eq!(parse_entity_uid(b"+"), None);
    assert_eq!(parse_entity_uid(b"12a"), None);
    assert_eq!(parse_entity_uid(b"-3"), None);
    assert_eq!(parse_entity_uid(b" 5"), None);
    assert_eq!(parse_entity_uid(b"18446744073709551616"), None);
    assert_eq!(parse_entity_uid(b"99999999999999999999999"), None);
}

#[test]
fn u64_to_string_renders_decimal() {
    assert_eq!(u64_to_string(0), "0");
    assert_eq!(u64_to_string(7), "7");
    assert_eq!(u64_to_string(42), "42");
    assert_eq!(u64_to_string(1024), "1024");
    assert_eq!(u64_to_string(u64::MAX), "18446744073709551615");
}

#[test]
fn api_user_reads_the_identity_header() {
    let user = ApiUser::from_header(Some(b"42")).unwrap();
    assert_eq!(user.uid(), 42);
    match ApiUser::from_header(None) {
        Err(ApiError::Forbidden(m)) => assert_eq!(m, "No X-Entity-Uid header"),
        _ => panic!("a missing header must be refused"),
    }
    match ApiUser::from_header(Some(b"not-a-number")) {
        Err(ApiError::Forbidden(m)) => assert_eq!(m, "Invalid X-Entity-Uid header"),
        _ => panic!("an unparsable header must be refused"),
    }
}

#[test]
fn api_error_mapping_from_store_errors() {
    assert_eq!(
        ApiError::from(DaError::DirectoryNotFound(DaDirectorySid(5))),
        ApiError::NotFound
    );
    assert_eq!(
        ApiError::from(DaError::DirectoryDepthLimitExceeded(16)),
        ApiError::InternalServerError
    );
    match ApiError::from(DaError::AccessDenied {
        requested_by: 7,
        resource_owner: 9,
    }) {
        ApiError::Forbidden(m) => {
            assert_eq!(m, "the user 7 is not allowed to access the resource")
        }
        _ => panic!("access denied must map to forbidden"),
    }
}

#[test]
fn api_error_response_parts() {
    assert_eq!(ApiError::Forbidden(String::new()).status_code(), 403);
    assert_eq!(ApiError::NotFound.status_code(), 404);
    assert_eq!(ApiError::InternalServerError.status_code(), 500);
    assert_eq!(
        ApiError::Forbidden(String::new()).response_text(),
        "Forbidden"
    );
    assert_eq!(ApiError::NotFound.response_text(), "Not found");
    assert_eq!(
        ApiError::InternalServerError.response_text(),
        "Internal server error"
    );
}

#[test]
fn render_shows_the_tree_shape() {
    let mut repo = MemRepository::new();
    let root = repo.create_directory(1, "root", None).unwrap();
    repo.create_directory(1, "a", Some(root.sid)).unwrap();
    let b = repo.create_directory(1, "b", Some(root.sid)).unwrap();
    repo.create_directory(1, "c", Some(b.sid)).unwrap();
    let got = repo.get_directory(1, root.sid).unwrap();
    assert_eq!(got.fmt_with_children(0), "| root\n|  a\n|  b\n|   c\n");
    assert_eq!(got.render(), "-\n| root\n|  a\n|  b\n|   c\n-\n");
}

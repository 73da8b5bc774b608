use search_engine::admin::{authorize, index_batch, index_commit, AdminRefusal};
use search_engine::dictionary::Dictionary;
use search_engine::docs::DocStore;
use search_engine::ingest::{input_format, jsonl_records, keep_record_lines, InputFormat};
use search_engine::query::AppState;

fn state(token: Option<&str>) -> AppState {
    AppState {
        index_paths_root: "idx".to_string(),
        dictionary: Dictionary::new(),
        docs: DocStore::new(),
        num_docs: 0,
        admin_token: token.map(|t| t.to_string()),
    }
}

#[test]
fn without_a_configured_token_every_request_is_unauthorized() {
    assert_eq!(authorize(&state(None), ""), Err(AdminRefusal::TokenNotSet));
    assert_eq!(authorize(&state(None), "secret"), Err(AdminRefusal::TokenNotSet));
    assert_eq!(index_batch(&state(None), "secret"), AdminRefusal::TokenNotSet);
    assert_eq!(index_commit(&state(None), "secret"), AdminRefusal::TokenNotSet);
}

#[test]
fn a_wrong_token_is_unauthorized() {
    let s = state(Some("secret"));
    assert_eq!(authorize(&s, ""), Err(AdminRefusal::InvalidToken));
    assert_eq!(authorize(&s, "Secret"), Err(AdminRefusal::InvalidToken));
    assert_eq!(authorize(&s, "secret "), Err(AdminRefusal::InvalidToken));
    assert_eq!(index_batch(&s, "nope"), AdminRefusal::InvalidToken);
    assert_eq!(index_commit(&s, "nope"), AdminRefusal::InvalidToken);
}

#[test]
fn the_right_token_reaches_operations_that_are_not_implemented() {
    let s = state(Some("secret"));
    assert_eq!(authorize(&s, "secret"), Ok(()));
    assert_eq!(index_batch(&s, "secret"), AdminRefusal::BatchNotImplemented);
    assert_eq!(index_commit(&s, "secret"), AdminRefusal::CommitNotImplemented);
}

#[test]
fn refusals_carry_status_and_message() {
    assert_eq!(AdminRefusal::TokenNotSet.status(), 401);
    assert_eq!(AdminRefusal::InvalidToken.status(), 401);
    assert_eq!(AdminRefusal::BatchNotImplemented.status(), 501);
    assert_eq!(AdminRefusal::CommitNotImplemented.status(), 501);
    assert_eq!(AdminRefusal::TokenNotSet.message(), "ADMIN_TOKEN not set");
    assert_eq!(AdminRefusal::InvalidToken.message(), "invalid admin token");
    assert_eq!(AdminRefusal::BatchNotImplemented.message(), "Incremental indexing not implemented");
    assert_eq!(AdminRefusal::CommitNotImplemented.message(), "Commit not implemented");
}

#[test]
fn input_files_are_chosen_by_extension() {
    assert_eq!(input_format(Some("jsonl"), true), Some(InputFormat::JsonLines));
    assert_eq!(input_format(Some("json"), true), Some(InputFormat::Json));
    assert_eq!(input_format(Some("txt"), true), None);
    assert_eq!(input_format(Some("JSON"), true), None);
    assert_eq!(input_format(None, true), None);
    assert_eq!(input_format(Some("jsonl"), false), Some(InputFormat::JsonLines));
    assert_eq!(input_format(Some("json"), false), Some(InputFormat::Json));
    assert_eq!(input_format(Some("txt"), false), Some(InputFormat::Json));
    assert_eq!(input_format(None, false), Some(InputFormat::Json));
}

#[test]
fn blank_lines_of_a_jsonl_input_are_skipped() {
    let text = "{\"id\":\"a\"}\n\n   \n{\"id\":\"b\"}\r\n\t\r\n{\"id\":\"c\"}";
    assert_eq!(
        jsonl_records(text),
        vec!["{\"id\":\"a\"}".to_string(), "{\"id\":\"b\"}".to_string(), "{\"id\":\"c\"}".to_string()]
    );
    assert!(jsonl_records("").is_empty());
    assert!(jsonl_records("\n\n \n").is_empty());
    assert_eq!(jsonl_records("one line"), vec!["one line".to_string()]);
    assert_eq!(
        keep_record_lines(vec![" ".to_string(), " x ".to_string(), String::new()]),
        vec![" x ".to_string()]
    );
}

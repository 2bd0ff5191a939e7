use lsp_textdocument::DocumentEvent;
use lsp_textdocument::Position;
use lsp_textdocument::Range;
use lsp_textdocument::TextDocuments;
use lsp_textdocument::TextDocumentContentChangeEvent;

fn uri(s: &str) -> Vec<u8> {
    s.as_bytes().to_vec()
}

#[test]
fn test_store_open_and_get() {
    let mut documents = TextDocuments::new();
    assert!(documents.get_document(&uri("file://a.txt")).is_none());

    documents.open(
        uri("file://a.txt"),
        "plain_text".to_string(),
        1,
        "hello rust!".as_bytes().to_vec(),
    );

    let document = documents.get_document(&uri("file://a.txt")).unwrap();
    assert_eq!(document.version(), 1);
    assert_eq!(document.get_content(None), "hello rust!".as_bytes());
    assert_eq!(
        documents.get_document_language(&uri("file://a.txt")),
        Some("plain_text")
    );
    assert!(documents.get_document(&uri("file://b.txt")).is_none());
}

#[test]
fn test_store_get_content_by_range() {
    let mut documents = TextDocuments::new();
    documents.open(
        uri("file://a.txt"),
        "plain_text".to_string(),
        1,
        "hello rust!".as_bytes().to_vec(),
    );

    let all = documents.get_document_content(&uri("file://a.txt"), None);
    assert_eq!(all, Some("hello rust!".as_bytes()));

    let range = Range {
        start: Position {
            line: 0,
            character: 1,
        },
        end: Position {
            line: 0,
            character: 9,
        },
    };
    let sub = documents.get_document_content(&uri("file://a.txt"), Some(range));
    assert_eq!(sub, Some("ello rus".as_bytes()));

    assert_eq!(documents.get_document_content(&uri("file://b.txt"), None), None);
}

#[test]
fn test_store_open_replaces_existing() {
    let mut documents = TextDocuments::new();
    documents.open(uri("file://a.txt"), "rust".to_string(), 1, uri("one"));
    documents.open(uri("file://a.txt"), "toml".to_string(), 5, uri("two"));

    let document = documents.get_document(&uri("file://a.txt")).unwrap();
    assert_eq!(document.version(), 5);
    assert_eq!(document.language_id(), "toml");
    assert_eq!(document.get_content(None), "two".as_bytes());
    assert_eq!(documents.documents().len(), 1);
}

#[test]
fn test_store_change_and_close() {
    let mut documents = TextDocuments::new();
    documents.open(uri("file://a.txt"), "text".to_string(), 1, uri("he\nllo"));

    let changes = vec![TextDocumentContentChangeEvent {
        range: Some(Range {
            start: Position {
                line: 1,
                character: 0,
            },
            end: Position {
                line: 1,
                character: 3,
            },
        }),
        range_length: None,
        text: uri("y"),
    }];
    let result = documents.change(&uri("file://a.txt"), &changes, 2);
    assert!(result.is_ok());
    let document = documents.get_document(&uri("file://a.txt")).unwrap();
    assert_eq!(document.get_content(None), "he\ny".as_bytes());
    assert_eq!(document.version(), 2);

    // a change for an unknown document is a silent no-op
    let result = documents.change(&uri("file://missing.txt"), &changes, 3);
    assert!(result.is_ok());

    documents.close(&uri("file://a.txt"));
    assert!(documents.get_document(&uri("file://a.txt")).is_none());
    // closing again is a no-op
    documents.close(&uri("file://a.txt"));
}

#[test]
fn test_listen_dispatch() {
    let mut documents = TextDocuments::new();

    let handled = documents.listen(DocumentEvent::Open {
        uri: uri("file://a.txt"),
        language_id: "text".to_string(),
        version: 1,
        text: uri("abc"),
    });
    assert_eq!(handled, Ok(true));

    let handled = documents.listen(DocumentEvent::Change {
        uri: uri("file://a.txt"),
        changes: vec![TextDocumentContentChangeEvent {
            range: None,
            range_length: None,
            text: uri("xyz"),
        }],
        version: 2,
    });
    assert_eq!(handled, Ok(true));
    assert_eq!(
        documents.get_document_content(&uri("file://a.txt"), None),
        Some("xyz".as_bytes())
    );

    // an unknown event kind is reported as unhandled
    let handled = documents.listen(DocumentEvent::Other);
    assert_eq!(handled, Ok(false));

    let handled = documents.listen(DocumentEvent::Close {
        uri: uri("file://a.txt"),
    });
    assert_eq!(handled, Ok(true));
    assert!(documents.get_document(&uri("file://a.txt")).is_none());
}

#[test]
fn test_listen_change_invalid_range() {
    let mut documents = TextDocuments::new();
    documents.open(uri("file://a.txt"), "text".to_string(), 1, uri("he\nllo\nworld"));

    let result = documents.listen(DocumentEvent::Change {
        uri: uri("file://a.txt"),
        changes: vec![TextDocumentContentChangeEvent {
            range: Some(Range {
                start: Position {
                    line: 2,
                    character: 0,
                },
                end: Position {
                    line: 1,
                    character: 0,
                },
            }),
            range_length: Some(0),
            text: Vec::new(),
        }],
        version: 2,
    });
    let err = result.unwrap_err();
    assert_eq!(err.start_offset, 7);
    assert_eq!(err.end_offset, 3);
    // the document is untouched
    let document = documents.get_document(&uri("file://a.txt")).unwrap();
    assert_eq!(document.version(), 1);
    assert_eq!(document.get_content(None), "he\nllo\nworld".as_bytes());
}

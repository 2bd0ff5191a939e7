use lsp_textdocument::FullTextDocument;
use lsp_textdocument::Position;
use lsp_textdocument::Range;
use lsp_textdocument::TextDocumentContentChangeEvent;

fn full_text_document() -> FullTextDocument {
    FullTextDocument::new(
        "js".to_string(),
        2,
        "he\nllo\nworld\r\nfoo\rbar".to_string().into_bytes(),
    )
}

#[test]
fn test_offset_at() {
    let text_document = full_text_document();

    let offset = text_document.offset_at(Position {
        line: 1,
        character: 1,
    });
    assert_eq!(offset, 4);

    let offset = text_document.offset_at(Position {
        line: 2,
        character: 3,
    });
    assert_eq!(offset, 10);

    // the `f` in `foo` (\r\n is a single line terminator)
    let offset = text_document.offset_at(Position {
        line: 3,
        character: 1,
    });
    assert_eq!(offset, 15);
}

/// basic multilingual plane
#[test]
fn test_offset_at_bmp() {
    // Euro symbol
    let text_document =
        FullTextDocument::new("js".to_string(), 2, "\u{20AC} euro".as_bytes().to_vec());

    let offset = text_document.offset_at(Position {
        line: 0,
        // E euro
        //   ^
        character: 2,
    });
    assert_eq!(offset, 4);
}

/// supplementary multilingual plane, aka surrogate pair
#[test]
fn test_offset_at_smp() {
    // Deseret Small Letter Yee
    let text_document =
        FullTextDocument::new("js".to_string(), 2, "\u{10437} yee".as_bytes().to_vec());
    let offset = text_document.offset_at(Position {
        line: 0,
        // HL yee
        //    ^
        character: 3,
    });
    assert_eq!(offset, 5);
}

/// a character position inside a surrogate pair maps to the byte offset of
/// the code point containing it
#[test]
fn test_offset_at_inside_surrogate_pair() {
    let text_document =
        FullTextDocument::new("js".to_string(), 2, "\u{10437} yee".as_bytes().to_vec());
    let offset = text_document.offset_at(Position {
        line: 0,
        character: 1,
    });
    assert_eq!(offset, 0);
}

/// a character beyond the end of the line should clamp to the end of the line
#[test]
fn test_offset_at_beyond_end_of_line() {
    let text_document =
        FullTextDocument::new("js".to_string(), 2, "\u{20AC} abc\nline 2".as_bytes().to_vec());
    // "\u{20AC} abc\nline 2" in UTF-8:
    // \xE2 \x82 \xAC \x20 \x61 \x62 \x63 \x0A \x6C \x69 \x6E \x65 \x20 \x32
    // ^ line 1 == 0                           ^ line 2 == 8
    assert_eq!(text_document.line_offsets(), &vec![0, 8]);

    let offset = text_document.offset_at(Position {
        line: 0,
        character: 100,
    });
    assert_eq!(offset, 8);
}

#[test]
fn test_position_at() {
    let text_document = full_text_document();

    let position = text_document.position_at(5);
    assert_eq!(
        position,
        Position {
            line: 1,
            character: 2
        }
    );

    let position = text_document.position_at(11);
    assert_eq!(
        position,
        Position {
            line: 2,
            character: 4,
        }
    );

    let position = text_document.position_at(15);
    assert_eq!(
        position,
        Position {
            line: 3,
            character: 1,
        }
    );

    let position = text_document.position_at(0);
    assert_eq!(
        position,
        Position {
            line: 0,
            character: 0,
        }
    );
}

/// basic multilingual plane
#[test]
fn test_position_at_bmp() {
    // Euro symbol
    let text_document =
        FullTextDocument::new("js".to_string(), 2, "\u{20AC} euro".as_bytes().to_vec());
    let position = text_document.position_at(4);
    assert_eq!(
        position,
        Position {
            line: 0,
            // E euro
            //   ^
            character: 2,
        }
    );

    // multi-line content
    let text_document =
        FullTextDocument::new("js".to_string(), 2, "\n\n\u{20AC} euro\n\n".as_bytes().to_vec());
    let position = text_document.position_at(6);
    assert_eq!(
        position,
        Position {
            line: 2,
            // E euro
            //   ^
            character: 2,
        }
    );
}

/// supplementary multilingual plane, aka surrogate pair
#[test]
fn test_position_at_smp() {
    // Deseret Small Letter Yee
    let text_document =
        FullTextDocument::new("js".to_string(), 2, "\u{10437} yee".as_bytes().to_vec());
    assert_eq!(
        text_document.position_at(5),
        Position {
            line: 0,
            // HL yee
            //    ^
            character: 3,
        }
    );

    // \u{10437} is 4 bytes wide. if not on a char boundary, round down
    assert_eq!(
        text_document.position_at(2),
        Position {
            line: 0,
            character: 0,
        }
    );

    // multi-line content
    let text_document =
        FullTextDocument::new("js".to_string(), 2, "\n\n\u{10437} yee\n\n".as_bytes().to_vec());
    let position = text_document.position_at(7);
    assert_eq!(
        position,
        Position {
            line: 2,
            // HL yee
            //    ^
            character: 3,
        }
    );
}

/// a byte offset that begins a line maps to that line, at character 0
#[test]
fn test_position_at_line_start() {
    let text_document = full_text_document();
    assert_eq!(
        text_document.position_at(3),
        Position {
            line: 1,
            character: 0,
        }
    );
    assert_eq!(
        text_document.position_at(14),
        Position {
            line: 3,
            character: 0,
        }
    );
}

#[test]
fn test_get_content() {
    let text_document = full_text_document();

    let start = Position {
        line: 0,
        character: 0,
    };
    let end = Position {
        line: 1,
        character: 2,
    };
    let range = Range { start, end };
    let content = text_document.get_content(Some(range));
    assert_eq!(content, "he\nll".as_bytes());

    let end = Position {
        line: 100,
        character: 100,
    };
    let range = Range { start, end };
    let content = text_document.get_content(Some(range));
    assert_eq!(content, text_document.get_content(None));

    let range = Range {
        start: Position {
            line: 1,
            character: 0,
        },
        end: Position {
            line: 2,
            character: 3,
        },
    };
    let content = text_document.get_content(Some(range));
    assert_eq!(content, "llo\nwor".as_bytes());
}

/// basic multilingual plane
#[test]
fn test_get_content_bmp() {
    // Euro symbol
    let text_document =
        FullTextDocument::new("js".to_string(), 2, "\u{20AC} euro".as_bytes().to_vec());

    // Euro symbol is 1 UTF16 code unit wide
    let range = Range {
        start: Position {
            line: 0,
            character: 0,
        },
        end: Position {
            line: 0,
            character: 1,
        },
    };
    let content = text_document.get_content(Some(range));
    assert_eq!(content, "\u{20AC}".as_bytes());

    // E euro
    //   ^
    let range = Range {
        start: Position {
            line: 0,
            character: 2,
        },
        end: Position {
            line: 0,
            character: 3,
        },
    };
    let content = text_document.get_content(Some(range));
    assert_eq!(content, "e".as_bytes());
}

/// supplementary multilingual plane, aka surrogate pairs
#[test]
fn test_get_content_smp() {
    // Deseret Small Letter Yee
    let text_document =
        FullTextDocument::new("js".to_string(), 2, "\u{10437} yee".as_bytes().to_vec());

    // surrogate pairs are 2 UTF16 code units wide
    let range = Range {
        start: Position {
            line: 0,
            character: 0,
        },
        end: Position {
            line: 0,
            character: 2,
        },
    };
    let content = text_document.get_content(Some(range));
    assert_eq!(content, "\u{10437}".as_bytes());
}

#[test]
fn test_update_full_content() {
    let mut text_document = full_text_document();
    let new_text = "hello\n js!";

    let result = text_document.update(
        &[TextDocumentContentChangeEvent {
            text: new_text.as_bytes().to_vec(),
            range: None,
            range_length: None,
        }],
        1,
    );

    assert!(result.is_ok());
    assert_eq!(text_document.get_content(None), new_text.as_bytes());
    assert_eq!(text_document.line_offsets(), &vec![0, 6]);
}

#[test]
fn test_update_part_content() {
    let mut text_document = full_text_document();
    assert_eq!(text_document.version(), 2);
    let new_text = String::from("xx\ny");
    let range = Range {
        start: Position {
            line: 1,
            character: 0,
        },
        end: Position {
            line: 1,
            character: 3,
        },
    };
    let result = text_document.update(
        &[TextDocumentContentChangeEvent {
            range: Some(range),
            range_length: None,
            text: new_text.into_bytes(),
        }],
        1,
    );

    assert!(result.is_ok());
    assert_eq!(
        text_document.get_content(None),
        "he\nxx\ny\nworld\r\nfoo\rbar".as_bytes()
    );
    assert_eq!(text_document.line_offsets(), &vec![0, 3, 6, 8, 15, 19]);
    assert_eq!(text_document.version(), 1)
}

/// an inverted range is rejected with the contract-violation error and the
/// version stays untouched
#[test]
fn test_update_invalid_range() {
    let mut text_document = full_text_document();
    // start is after end
    let range = Range {
        start: Position {
            line: 2,
            character: 0,
        },
        end: Position {
            line: 1,
            character: 0,
        },
    };
    let result = text_document.update(
        &[TextDocumentContentChangeEvent {
            text: Vec::new(),
            range: Some(range),
            range_length: Some(0),
        }],
        1,
    );

    let err = result.unwrap_err();
    assert_eq!(
        err.start,
        Position {
            line: 2,
            character: 0,
        }
    );
    assert_eq!(
        err.end,
        Position {
            line: 1,
            character: 0,
        }
    );
    assert_eq!(err.start_offset, 7);
    assert_eq!(err.end_offset, 3);
    assert_eq!(text_document.version(), 2);
    assert_eq!(
        text_document.get_content(None),
        "he\nllo\nworld\r\nfoo\rbar".as_bytes()
    );
}

/// It turns out that there are multiple values for Position that can map to
/// the same offset following a newline.
#[test]
fn test_multiple_position_same_offset() {
    let text_document = full_text_document();
    let end_of_first_line = Position {
        line: 0,
        character: 3,
    };
    let start_of_second_line = Position {
        line: 1,
        character: 0,
    };
    assert_eq!(
        text_document.offset_at(end_of_first_line),
        text_document.offset_at(start_of_second_line)
    );

    let beyond_end_of_first_line = Position {
        line: 0,
        character: 10_000,
    };
    assert_eq!(
        text_document.offset_at(beyond_end_of_first_line),
        text_document.offset_at(start_of_second_line)
    );
}

#[test]
fn test_insert_using_positions_after_newline_at_end_of_line() {
    let mut doc = FullTextDocument::new(
        "text".to_string(),
        0,
        "0:1332533\n0:1332534\n0:1332535\n0:1332536\n"
            .to_string()
            .into_bytes(),
    );
    let result = doc.update(
        &[TextDocumentContentChangeEvent {
            range: Some(Range {
                // After \n at the end of line 1.
                start: Position {
                    line: 1,
                    character: 10,
                },
                // After \n at the end of line 2.
                end: Position {
                    line: 2,
                    character: 10,
                },
            }),
            range_length: None,
            text: "1:6188912\n1:6188913\n1:6188914\n".to_string().into_bytes(),
        }],
        1,
    );
    assert!(result.is_ok());
    assert_eq!(
        doc.get_content(None),
        "0:1332533\n0:1332534\n1:6188912\n1:6188913\n1:6188914\n0:1332536\n".as_bytes(),
    );
    assert_eq!(doc.line_offsets(), &vec![0, 10, 20, 30, 40, 50, 60]);
}

#[test]
fn test_line_offsets() {
    let mut doc = FullTextDocument::new(
        "text".to_string(),
        0,
        "123456789\n123456789\n".to_string().into_bytes(),
    );
    assert_eq!(doc.line_offsets(), &vec![0, 10, 20]);
    let result = doc.update(
        &[TextDocumentContentChangeEvent {
            range: Some(Range {
                start: Position {
                    line: 1,
                    character: 5,
                },
                end: Position {
                    line: 1,
                    character: 5,
                },
            }),
            range_length: None,
            text: "\nA\nB\nC\n".to_string().into_bytes(),
        }],
        1,
    );
    assert!(result.is_ok());
    assert_eq!(
        doc.get_content(None),
        "123456789\n12345\nA\nB\nC\n6789\n".as_bytes(),
    );
    assert_eq!(doc.line_offsets(), &vec![0, 10, 16, 18, 20, 22, 27]);
}

/// mixed terminators: lines split after `\n`, after `\r\n` as one boundary,
/// and after a lone `\r`
#[test]
fn test_line_terminator_counting() {
    let text_document = full_text_document();
    assert_eq!(text_document.line_offsets(), &vec![0, 3, 7, 14, 18]);
    assert_eq!(text_document.line_count(), 5);
    // offset 15 resolves inside the `foo` line
    let position = text_document.position_at(15);
    assert_eq!(position.line, 3);
}

/// accessors
#[test]
fn test_language_id_and_content_len() {
    let text_document = full_text_document();
    assert_eq!(text_document.language_id(), "js");
    assert_eq!(text_document.content_len(), 21);
}

/// several edits in one update call apply in order, each against the result
/// of the previous one
#[test]
fn test_update_sequential_edits() {
    let mut doc = FullTextDocument::new("text".to_string(), 0, "abc\ndef".to_string().into_bytes());
    let result = doc.update(
        &[
            TextDocumentContentChangeEvent {
                range: Some(Range {
                    start: Position {
                        line: 0,
                        character: 0,
                    },
                    end: Position {
                        line: 0,
                        character: 1,
                    },
                }),
                range_length: None,
                text: "xy".to_string().into_bytes(),
            },
            TextDocumentContentChangeEvent {
                range: Some(Range {
                    start: Position {
                        line: 1,
                        character: 3,
                    },
                    end: Position {
                        line: 1,
                        character: 3,
                    },
                }),
                range_length: None,
                text: "!\n".to_string().into_bytes(),
            },
        ],
        7,
    );
    assert!(result.is_ok());
    assert_eq!(doc.get_content(None), "xybc\ndef!\n".as_bytes());
    assert_eq!(doc.line_offsets(), &vec![0, 5, 10]);
    assert_eq!(doc.version(), 7);
}

/// an edit whose inserted text ends in `\r` directly before a kept `\n`
/// records a boundary after that `\r` from its own scan; the pair is only
/// re-joined by the next full scan
#[test]
fn test_update_insert_cr_before_lf() {
    let mut doc = FullTextDocument::new("text".to_string(), 0, "ab\ncd".to_string().into_bytes());
    let result = doc.update(
        &[TextDocumentContentChangeEvent {
            range: Some(Range {
                start: Position {
                    line: 0,
                    character: 1,
                },
                end: Position {
                    line: 0,
                    character: 2,
                },
            }),
            range_length: None,
            text: "\r".to_string().into_bytes(),
        }],
        1,
    );
    assert!(result.is_ok());
    assert_eq!(doc.get_content(None), "a\r\ncd".as_bytes());
    assert_eq!(doc.line_offsets(), &vec![0, 2, 3]);
}

use mdbabel::markdown::{
    parse_comment_from_line, parse_lang_from_code_block_del, CodeBlockBody, CodeBlockHeader,
    Directive, Document, HeaderError,
};

#[test]
fn parse_comment_from_line_basic() {
    let tests = vec![
        // Input, expected output.
        ("<!-- hello world -->", Some("hello world")),
        ("abc <!-- hello world -->", Some("hello world")),
        ("<!-- hello world --> dfg", Some("hello world")),
        ("<!---->", Some("")),
        ("# hello world", None),
    ];

    for test in tests {
        let input = test.0;
        let expected = test.1.map(|s| s.to_owned());
        let output = parse_comment_from_line(input);
        assert_eq!(expected, output);
    }
}

#[test]
fn parse_comment_markers_out_of_order() {
    // A closing marker before the opening one is not a comment.
    assert_eq!(None, parse_comment_from_line("--> something <!--"));
    // Only the first marker pair counts.
    assert_eq!(
        Some("x".to_owned()),
        parse_comment_from_line("<!-- x --><!-- y -->")
    );
}

#[test]
fn parse_lang_from_code_block_del_basic() {
    let tests = vec![
        // Input, expected output.
        ("```", None),
        ("```bash", Some("bash")),
        ("``` sh", Some("sh")),
    ];

    for test in tests {
        let input = test.0;
        let expected = test.1.map(|s| s.to_owned());
        let output = parse_lang_from_code_block_del(input);
        assert_eq!(expected, output);
    }
}

#[test]
fn parse_lang_whitespace_trailer_is_no_lang() {
    // A trailer of nothing but whitespace yields no language tag.
    assert_eq!(None, parse_lang_from_code_block_del("```   "));
    assert_eq!(None, parse_lang_from_code_block_del("```\n"));
    // Whitespace around the tag is trimmed away.
    assert_eq!(
        Some("sh".to_owned()),
        parse_lang_from_code_block_del("``` sh ")
    );
}

#[test]
fn header_from_comment_contents_cases() {
    let ok = CodeBlockHeader::from_comment_contents("mdbabel :name test-block");
    assert_eq!(Ok("test-block".to_owned()), ok.map(|h| h.name));

    // Further tokens after the name are tolerated and ignored.
    let ok = CodeBlockHeader::from_comment_contents("  mdbabel   :name   blk   extra  ");
    assert_eq!(Ok("blk".to_owned()), ok.map(|h| h.name));

    assert_eq!(
        Err(HeaderError::EmptyHeader),
        CodeBlockHeader::from_comment_contents("").map(|h| h.name)
    );
    assert_eq!(
        Err(HeaderError::EmptyHeader),
        CodeBlockHeader::from_comment_contents("   ").map(|h| h.name)
    );
    assert_eq!(
        Err(HeaderError::WrongPrefix),
        CodeBlockHeader::from_comment_contents("foo :name x").map(|h| h.name)
    );
    assert_eq!(
        Err(HeaderError::MissingNameParameter),
        CodeBlockHeader::from_comment_contents("mdbabel").map(|h| h.name)
    );
    assert_eq!(
        Err(HeaderError::MissingNameParameter),
        CodeBlockHeader::from_comment_contents("mdbabel :tag x").map(|h| h.name)
    );
    assert_eq!(
        Err(HeaderError::MissingNameValue),
        CodeBlockHeader::from_comment_contents("mdbabel :name").map(|h| h.name)
    );
}

#[test]
fn read_document_basic() {
    let content = "\
            # Document\n\
            \n\
            Some text\n\
            \n\
            <!-- mdbabel :name test-block -->\n\
            ```sh\n\
            echo 'hello world'\n\
            ```\n\
            \n\
            More text.\n";

    let mut doc = Document::new(content);

    let directive = doc.next().expect("expected code block directive");
    let expected = Directive::CodeBlock {
        header: CodeBlockHeader {
            name: "test-block".to_owned(),
        },
        body: CodeBlockBody {
            lang: Some("sh".to_owned()),
            code: "echo 'hello world'\n".to_owned(),
        },
    };
    assert_eq!(expected, directive);

    let next = doc.next();
    assert_eq!(None, next);
}

#[test]
fn read_document_two_directives_in_order() {
    let content = "\
            <!-- mdbabel :name first -->\n\
            ```sh\n\
            echo one\n\
            echo two\n\
            ```\n\
            prose in between\n\
            <!-- mdbabel :name second -->\n\
            ```bash\n\
            echo three\n\
            ```\n";

    let mut doc = Document::new(content);

    let first = doc.next().expect("expected first directive");
    assert_eq!(
        Directive::CodeBlock {
            header: CodeBlockHeader {
                name: "first".to_owned(),
            },
            body: CodeBlockBody {
                lang: Some("sh".to_owned()),
                code: "echo one\necho two\n".to_owned(),
            },
        },
        first
    );

    let second = doc.next().expect("expected second directive");
    assert_eq!(
        Directive::CodeBlock {
            header: CodeBlockHeader {
                name: "second".to_owned(),
            },
            body: CodeBlockBody {
                lang: Some("bash".to_owned()),
                code: "echo three\n".to_owned(),
            },
        },
        second
    );

    assert_eq!(None, doc.next());
}

#[test]
fn read_document_malformed_header_stops_production() {
    // A malformed header ends the stream even though a well-formed
    // directive follows it; the directive before it still comes out,
    // and the stream stays exhausted however often it is pulled.
    let content = "\
            <!-- mdbabel :name good -->\n\
            ```sh\n\
            echo ok\n\
            ```\n\
            <!-- mdbabel :wrong broken -->\n\
            <!-- mdbabel :name never-seen -->\n\
            ```sh\n\
            echo never\n\
            ```\n";

    let mut doc = Document::new(content);

    let first = doc.next().expect("expected the directive before the bad header");
    match first {
        Directive::CodeBlock { header, body } => {
            assert_eq!("good", header.name);
            assert_eq!("echo ok\n", body.code);
        }
    }

    // The pull that reaches the bad header fails, and the well-formed
    // directive standing after it is never produced: there is no
    // resynchronization, so later pulls keep yielding nothing.
    assert_eq!(None, doc.next());
    assert_eq!(None, doc.next());
    assert_eq!(None, doc.next());
}

#[test]
fn read_document_missing_fence_ends_stream() {
    let content = "\
            <!-- mdbabel :name no-fence -->\n\
            not a fence\n\
            ```sh\n\
            echo hi\n\
            ```\n";

    let mut doc = Document::new(content);
    assert_eq!(None, doc.next());
    // The stream stays exhausted after the failure.
    assert_eq!(None, doc.next());
}

#[test]
fn read_document_blank_line_before_fence_ends_stream() {
    // The opening fence must stand on the very next physical line.
    let content = "\
            <!-- mdbabel :name gap -->\n\
            \n\
            ```sh\n\
            echo hi\n\
            ```\n";

    let mut doc = Document::new(content);
    assert_eq!(None, doc.next());
}

#[test]
fn read_document_unclosed_block_ends_stream() {
    let content = "\
            <!-- mdbabel :name unclosed -->\n\
            ```sh\n\
            echo hi\n";

    let mut doc = Document::new(content);
    assert_eq!(None, doc.next());
}

#[test]
fn read_document_empty_block_and_no_lang() {
    let content = "\
            <!-- mdbabel :name empty -->\n\
            ```\n\
            ```\n";

    let mut doc = Document::new(content);
    let directive = doc.next().expect("expected directive with empty body");
    assert_eq!(
        Directive::CodeBlock {
            header: CodeBlockHeader {
                name: "empty".to_owned(),
            },
            body: CodeBlockBody {
                lang: None,
                code: "".to_owned(),
            },
        },
        directive
    );
    assert_eq!(None, doc.next());
}

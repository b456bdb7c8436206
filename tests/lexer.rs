use docula::markdown::lexer::lex_analysis;
use docula::markdown::token::{Block, BlockToken, Document, HeadingStyle, Inline, InlineToken};

fn heading(line: usize, level: usize, position: usize, text: &str, style: HeadingStyle) -> BlockToken {
    BlockToken {
        line_start: line,
        token: Block::Heading {
            level,
            content: vec![InlineToken {
                line_start: line,
                position,
                token: Inline::Chunk(text.to_string()),
            }],
            style,
        },
    }
}

#[test]
fn test_empty_str() {
    let input = "";
    let expected: Document = vec![];
    let result = lex_analysis(input);

    assert_eq!(expected, result);
}

#[test]
fn test_atx_header_1_str() {
    let input = "# Header 1";
    let expected: Document = vec![BlockToken {
        line_start: 0,
        token: Block::Heading {
            level: 1,
            style: HeadingStyle::Atx,
            content: vec![InlineToken {
                line_start: 0,
                position: 2,
                token: Inline::Chunk("Header 1".to_owned()),
            }],
        },
    }];
    let result = lex_analysis(input);

    assert_eq!(expected, result);
}

#[test]
fn test_atx_header_1_str_wrapped() {
    let input = "# Header 1 #";
    let expected: Document = vec![BlockToken {
        line_start: 0,
        token: Block::Heading {
            level: 1,
            style: HeadingStyle::Atx,
            content: vec![InlineToken {
                line_start: 0,
                position: 2,
                token: Inline::Chunk("Header 1".to_owned()),
            }],
        },
    }];
    let result = lex_analysis(input);

    assert_eq!(expected, result);
}

#[test]
fn test_settx_header_1_str() {
    let input = "Header 1\n=====";
    let expected: Document = vec![BlockToken {
        line_start: 0,
        token: Block::Heading {
            level: 1,
            style: HeadingStyle::Setex,
            content: vec![InlineToken {
                line_start: 0,
                position: 0,
                token: Inline::Chunk("Header 1".to_owned()),
            }],
        },
    }];
    let result = lex_analysis(input);

    assert_eq!(expected, result);
}

#[test]
fn test_settx_header_2_str() {
    let input = "Header 2\n----";
    let expected: Document = vec![BlockToken {
        line_start: 0,
        token: Block::Heading {
            level: 2,
            style: HeadingStyle::Setex,
            content: vec![InlineToken {
                line_start: 0,
                position: 0,
                token: Inline::Chunk("Header 2".to_owned()),
            }],
        },
    }];

    let result = lex_analysis(input);

    assert_eq!(expected, result);
}

#[test]
fn test_code_block() {
    let input = "```\n\tint x = 0;\n\tx + 5;\n```\n";

    let expected: Document = vec![BlockToken {
        line_start: 0,
        token: Block::BlockCode { tag: None, content: "\tint x = 0;\n\tx + 5;".to_string() },
    }];

    let result = lex_analysis(input);

    assert_eq!(expected, result);
}

#[test]
fn test_code_block_with_heading() {
    let input = "```\n\tint x = 0;\n\tx + 5;\n```\n## Foo";

    let expected: Document = vec![
        BlockToken {
            line_start: 0,
            token: Block::BlockCode { tag: None, content: "\tint x = 0;\n\tx + 5;".to_string() },
        },
        BlockToken {
            line_start: 4,
            token: Block::Heading {
                level: 2,
                content: vec![InlineToken {
                    line_start: 4,
                    position: 3,
                    token: Inline::Chunk("Foo".to_string()),
                }],
                style: HeadingStyle::Atx,
            },
        },
    ];

    let result = lex_analysis(input);

    assert_eq!(expected, result);
}

#[test]
fn test_block_quote() {
    let input = "> # Foo";
    let expected = vec![BlockToken {
        line_start: 0,
        token: Block::BlockQuote(vec![BlockToken {
            line_start: 0,
            token: Block::Heading {
                level: 1,
                content: vec![InlineToken {
                    line_start: 0,
                    position: 4,
                    token: Inline::Chunk("Foo".to_string()),
                }],
                style: HeadingStyle::Atx,
            },
        }]),
    }];

    let result = lex_analysis(input);
    assert_eq!(expected, result);
}

#[test]
fn test_block_quote_multi_line() {
    let input = "\n\n\n> > # Foo";
    let expected = vec![BlockToken {
        line_start: 3,
        token: Block::BlockQuote(vec![BlockToken {
            line_start: 3,
            token: Block::BlockQuote(vec![BlockToken {
                line_start: 3,
                token: Block::Heading {
                    level: 1,
                    content: vec![InlineToken {
                        line_start: 3,
                        position: 6,
                        token: Inline::Chunk("Foo".to_string()),
                    }],
                    style: HeadingStyle::Atx,
                },
            }]),
        }]),
    }];

    let result = lex_analysis(input);
    assert_eq!(expected, result);
}

#[test]
fn seven_markers_give_no_heading() {
    let result = lex_analysis("####### Not a header\n## Foo");
    assert_eq!(result, vec![heading(1, 2, 3, "Foo", HeadingStyle::Atx)]);
}

#[test]
fn six_markers_give_level_six() {
    let result = lex_analysis("###### Six");
    assert_eq!(result, vec![heading(0, 6, 7, "Six", HeadingStyle::Atx)]);
}

#[test]
fn marker_must_be_followed_by_space() {
    assert_eq!(lex_analysis("#NoSpace"), vec![]);
}

#[test]
fn closing_markers_and_spaces_are_stripped() {
    let result = lex_analysis("  ##   Title ##  ");
    assert_eq!(result, vec![heading(0, 2, 7, "Title", HeadingStyle::Atx)]);
}

#[test]
fn unterminated_fence_is_no_code_block() {
    let result = lex_analysis("```\ncode\n# H");
    assert_eq!(result, vec![heading(2, 1, 2, "H", HeadingStyle::Atx)]);
}

#[test]
fn empty_code_block() {
    let result = lex_analysis("```\n```");
    assert_eq!(
        result,
        vec![BlockToken { line_start: 0, token: Block::BlockCode { tag: None, content: String::new() } }]
    );
}

#[test]
fn code_block_content_is_not_scanned() {
    let result = lex_analysis("```\n# not a heading\n```");
    assert_eq!(
        result,
        vec![BlockToken {
            line_start: 0,
            token: Block::BlockCode { tag: None, content: "# not a heading".to_string() },
        }]
    );
}

#[test]
fn quote_stops_at_empty_line() {
    let result = lex_analysis("> # A\n\n# B");
    assert_eq!(
        result,
        vec![
            BlockToken {
                line_start: 0,
                token: Block::BlockQuote(vec![heading(0, 1, 4, "A", HeadingStyle::Atx)]),
            },
            heading(2, 1, 2, "B", HeadingStyle::Atx),
        ]
    );
}

#[test]
fn quote_with_lazy_continuation_and_setext() {
    let result = lex_analysis("   > Title\n> ===");
    assert_eq!(
        result,
        vec![BlockToken {
            line_start: 0,
            token: Block::BlockQuote(vec![heading(0, 1, 5, "Title", HeadingStyle::Setex)]),
        }]
    );
}

#[test]
fn quote_positions_use_each_line_indent() {
    let result = lex_analysis("text\n>x\n>## Two");
    assert_eq!(
        result,
        vec![BlockToken {
            line_start: 1,
            token: Block::BlockQuote(vec![heading(2, 2, 4, "Two", HeadingStyle::Atx)]),
        }]
    );
}

#[test]
fn unmatched_lines_are_dropped() {
    assert_eq!(lex_analysis("just text\nmore text\n"), vec![]);
}

#[test]
fn setext_content_is_trimmed() {
    let result = lex_analysis("  Title  \n  ==  ");
    assert_eq!(result, vec![heading(0, 1, 0, "Title", HeadingStyle::Setex)]);
}

#[test]
fn crlf_line_endings() {
    let result = lex_analysis("# A\r\n## B\r\n");
    assert_eq!(
        result,
        vec![heading(0, 1, 2, "A", HeadingStyle::Atx), heading(1, 2, 3, "B", HeadingStyle::Atx)]
    );
}

#[test]
fn quote_round_trip_on_text() {
    let quoted = lex_analysis("> # Foo\n> bar\n> ---");
    let interior = lex_analysis("# Foo\nbar\n---");
    assert_eq!(
        interior,
        vec![heading(0, 1, 2, "Foo", HeadingStyle::Atx), heading(1, 2, 0, "bar", HeadingStyle::Setex)]
    );
    assert_eq!(
        quoted,
        vec![BlockToken {
            line_start: 0,
            token: Block::BlockQuote(vec![
                heading(0, 1, 4, "Foo", HeadingStyle::Atx),
                heading(1, 2, 2, "bar", HeadingStyle::Setex),
            ]),
        }]
    );
}

#[test]
fn nested_quote_mixed_marker_widths() {
    let result = lex_analysis(">  > # A");
    assert_eq!(
        result,
        vec![BlockToken {
            line_start: 0,
            token: Block::BlockQuote(vec![BlockToken {
                line_start: 0,
                token: Block::BlockQuote(vec![heading(0, 1, 7, "A", HeadingStyle::Atx)]),
            }]),
        }]
    );
}

#[test]
fn positions_are_byte_offsets() {
    let result = lex_analysis("#\u{a0}Foo");
    assert_eq!(result, vec![heading(0, 1, 3, "Foo", HeadingStyle::Atx)]);

    let result = lex_analysis(">  #\u{a0}Über");
    assert_eq!(
        result,
        vec![BlockToken {
            line_start: 0,
            token: Block::BlockQuote(vec![heading(0, 1, 6, "Über", HeadingStyle::Atx)]),
        }]
    );
}

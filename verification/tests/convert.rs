use xml_dict::{decode, decode_events, encode, Value, XmlError, XmlEvent};

fn text(s: &str) -> Value {
    Value::Text(s.to_string())
}

fn obj(pairs: Vec<(&str, Value)>) -> Value {
    Value::Object(pairs.into_iter().map(|(k, v)| (k.to_string(), v)).collect())
}

const DECL: &str = "<?xml version=\"1.0\" encoding=\"utf-8\"?>";

#[test]
fn text_leaf_round_trip_collapses_to_bare_string() {
    let input = obj(vec![("a", obj(vec![("#text", text("hi"))]))]);
    let xml = encode(&input).unwrap();
    assert_eq!(xml, format!("{}<a>hi</a>", DECL));
    let back = decode(&xml).unwrap();
    assert_eq!(back, obj(vec![("a", text("hi"))]));
}

#[test]
fn attribute_round_trip() {
    let input = obj(vec![(
        "item",
        obj(vec![("@id", text("5")), ("#text", text("x"))]),
    )]);
    let xml = encode(&input).unwrap();
    assert_eq!(xml, format!("{}<item id=\"5\">x</item>", DECL));
    let back = decode(&xml).unwrap();
    // The decoder stores the inline text first, then the attributes; the
    // map holds the same bindings.
    assert_eq!(
        back,
        obj(vec![(
            "item",
            obj(vec![("#text", text("x")), ("@id", text("5"))]),
        )])
    );
}

#[test]
fn duplicate_siblings_merge_into_list() {
    let decoded = decode("<root><tag>1</tag><tag>2</tag></root>").unwrap();
    let expected = obj(vec![(
        "root",
        obj(vec![("tag", Value::List(vec![text("1"), text("2")]))]),
    )]);
    assert_eq!(decoded, expected);
    let xml = encode(&expected).unwrap();
    assert_eq!(xml, format!("{}<root><tag>1</tag><tag>2</tag></root>", DECL));
}

#[test]
fn three_siblings_keep_document_order() {
    let decoded = decode("<r><t>a</t><t>b</t><t>c</t></r>").unwrap();
    let expected = obj(vec![(
        "r",
        obj(vec![(
            "t",
            Value::List(vec![text("a"), text("b"), text("c")]),
        )]),
    )]);
    assert_eq!(decoded, expected);
}

#[test]
fn empty_element_decodes_to_empty_map() {
    let decoded = decode("<e/>").unwrap();
    assert_eq!(decoded, obj(vec![("e", obj(vec![]))]));
}

#[test]
fn empty_map_encodes_to_self_closing_tag() {
    let xml = encode(&obj(vec![("e", obj(vec![]))])).unwrap();
    assert_eq!(xml, format!("{}<e/>", DECL));
}

#[test]
fn mismatched_close_tag_is_malformed() {
    match decode("<a><b></a>") {
        Err(XmlError::MalformedXml { .. }) => {}
        other => panic!("expected MalformedXml, got {:?}", other),
    }
}

#[test]
fn empty_document_is_reported() {
    assert_eq!(decode(""), Err(XmlError::EmptyDocument));
}

#[test]
fn whitespace_only_document_is_empty() {
    assert_eq!(decode("   \n\t  "), Err(XmlError::EmptyDocument));
}

#[test]
fn non_map_top_level_is_unsupported() {
    assert_eq!(encode(&text("x")), Err(XmlError::UnsupportedValueType));
    assert_eq!(
        encode(&Value::List(vec![text("x")])),
        Err(XmlError::UnsupportedValueType)
    );
    assert_eq!(encode(&Value::Null), Err(XmlError::UnsupportedValueType));
}

#[test]
fn attributes_get_prefixed_keys_and_win() {
    let decoded = decode("<item id=\"5\" class=\"c\"/>").unwrap();
    assert_eq!(
        decoded,
        obj(vec![(
            "item",
            obj(vec![("@id", text("5")), ("@class", text("c"))]),
        )])
    );
}

#[test]
fn attributes_and_text_both_kept() {
    let decoded = decode("<a id=\"1\">t</a>").unwrap();
    assert_eq!(
        decoded,
        obj(vec![(
            "a",
            obj(vec![("#text", text("t")), ("@id", text("1"))]),
        )])
    );
}

#[test]
fn special_characters_are_escaped_and_unescaped() {
    let input = obj(vec![("a", obj(vec![("#text", text("x<&>\"'y"))]))]);
    let xml = encode(&input).unwrap();
    assert_eq!(
        xml,
        format!("{}<a>x&lt;&amp;&gt;&quot;&apos;y</a>", DECL)
    );
    let back = decode(&xml).unwrap();
    assert_eq!(back, obj(vec![("a", text("x<&>\"'y"))]));
}

#[test]
fn attribute_values_are_escaped() {
    let input = obj(vec![("a", obj(vec![("@k", text("v\"<&"))]))]);
    let xml = encode(&input).unwrap();
    assert_eq!(
        xml,
        format!("{}<a k=\"v&quot;&lt;&amp;\"/>", DECL)
    );
    let back = decode(&xml).unwrap();
    assert_eq!(back, obj(vec![("a", obj(vec![("@k", text("v\"<&"))]))]));
}

#[test]
fn scalar_leaves_encode_as_text() {
    let xml = encode(&obj(vec![("n", Value::Number("2.5".to_string()))])).unwrap();
    assert_eq!(xml, format!("{}<n>2.5</n>", DECL));
    let xml = encode(&obj(vec![("b", Value::Bool(true))])).unwrap();
    assert_eq!(xml, format!("{}<b>true</b>", DECL));
    let xml = encode(&obj(vec![("b", Value::Bool(false))])).unwrap();
    assert_eq!(xml, format!("{}<b>false</b>", DECL));
    let xml = encode(&obj(vec![("x", Value::Null)])).unwrap();
    assert_eq!(xml, format!("{}<x/>", DECL));
}

#[test]
fn non_string_attribute_value_becomes_empty() {
    let input = obj(vec![("a", obj(vec![("@id", Value::Number("3".to_string()))]))]);
    let xml = encode(&input).unwrap();
    assert_eq!(xml, format!("{}<a id=\"\"/>", DECL));
}

#[test]
fn multiple_top_level_keys_emit_sibling_roots() {
    let input = obj(vec![("a", obj(vec![])), ("b", obj(vec![]))]);
    let xml = encode(&input).unwrap();
    assert_eq!(xml, format!("{}<a/><b/>", DECL));
}

#[test]
fn nested_elements_nest_in_output() {
    let input = obj(vec![(
        "r",
        obj(vec![("c", obj(vec![("#text", text("v"))]))]),
    )]);
    let xml = encode(&input).unwrap();
    assert_eq!(xml, format!("{}<r><c>v</c></r>", DECL));
    let back = decode(&xml).unwrap();
    assert_eq!(back, obj(vec![("r", obj(vec![("c", text("v"))]))]));
}

#[test]
fn text_after_child_elements_wins() {
    let decoded = decode("<a><b/>hi</a>").unwrap();
    assert_eq!(decoded, obj(vec![("a", text("hi"))]));
}

#[test]
fn child_elements_after_text_drop_the_text() {
    let decoded = decode("<a>hi<b/></a>").unwrap();
    assert_eq!(decoded, obj(vec![("a", obj(vec![("b", obj(vec![]))]))]));
}

#[test]
fn comments_are_ignored() {
    let decoded = decode("<a><!-- note -->x</a>").unwrap();
    assert_eq!(decoded, obj(vec![("a", text("x"))]));
}

#[test]
fn entities_in_text_are_resolved() {
    let decoded = decode("<a>x&amp;y</a>").unwrap();
    assert_eq!(decoded, obj(vec![("a", text("x&y"))]));
}

#[test]
fn decode_events_merges_three_duplicates() {
    let events = vec![
        XmlEvent::Start { name: "r".to_string(), attrs: vec![] },
        XmlEvent::Start { name: "t".to_string(), attrs: vec![] },
        XmlEvent::Text { content: "1".to_string() },
        XmlEvent::End,
        XmlEvent::Start { name: "t".to_string(), attrs: vec![] },
        XmlEvent::Text { content: "2".to_string() },
        XmlEvent::End,
        XmlEvent::Start { name: "t".to_string(), attrs: vec![] },
        XmlEvent::Text { content: "3".to_string() },
        XmlEvent::End,
        XmlEvent::End,
        XmlEvent::Eof,
    ];
    let decoded = decode_events(events).unwrap();
    assert_eq!(
        decoded,
        obj(vec![(
            "r",
            obj(vec![(
                "t",
                Value::List(vec![text("1"), text("2"), text("3")]),
            )]),
        )])
    );
}

#[test]
fn decode_events_rejects_stray_end_tag() {
    let events = vec![XmlEvent::End, XmlEvent::Eof];
    match decode_events(events) {
        Err(XmlError::MalformedXml { .. }) => {}
        other => panic!("expected MalformedXml, got {:?}", other),
    }
}

#[test]
fn decode_events_without_eof_finishes() {
    let events = vec![
        XmlEvent::Start { name: "e".to_string(), attrs: vec![] },
        XmlEvent::End,
    ];
    let decoded = decode_events(events).unwrap();
    assert_eq!(decoded, obj(vec![("e", obj(vec![]))]));
}

#[test]
fn decode_events_attribute_overrides_same_named_key() {
    // An attribute key prefixed with `@` wins over a same-named key the
    // element content produced; no tag name can collide, since tag names
    // never start with `@`.
    let events = vec![
        XmlEvent::Start {
            name: "a".to_string(),
            attrs: vec![("id".to_string(), "attr".to_string())],
        },
        XmlEvent::Start { name: "@id".to_string(), attrs: vec![] },
        XmlEvent::Text { content: "elem".to_string() },
        XmlEvent::End,
        XmlEvent::End,
        XmlEvent::Eof,
    ];
    let decoded = decode_events(events).unwrap();
    assert_eq!(
        decoded,
        obj(vec![("a", obj(vec![("@id", text("attr"))]))])
    );
}

#[test]
fn whitespace_only_text_is_ignored_by_the_fold() {
    let events = vec![
        XmlEvent::Start { name: "a".to_string(), attrs: vec![] },
        XmlEvent::Text { content: " \t\r\n".to_string() },
        XmlEvent::End,
        XmlEvent::Eof,
    ];
    let decoded = decode_events(events).unwrap();
    assert_eq!(decoded, obj(vec![("a", obj(vec![]))]));
}

#[test]
fn last_text_wins() {
    let events = vec![
        XmlEvent::Start { name: "a".to_string(), attrs: vec![] },
        XmlEvent::Text { content: "first".to_string() },
        XmlEvent::Text { content: "second".to_string() },
        XmlEvent::End,
        XmlEvent::Eof,
    ];
    let decoded = decode_events(events).unwrap();
    assert_eq!(decoded, obj(vec![("a", text("second"))]));
}

#[test]
fn list_under_a_key_restores_siblings() {
    let input = obj(vec![(
        "r",
        obj(vec![("t", Value::List(vec![text("1"), obj(vec![])]))]),
    )]);
    let xml = encode(&input).unwrap();
    assert_eq!(xml, format!("{}<r><t>1</t><t/></r>", DECL));
}

#[test]
fn empty_text_key_keeps_open_close_pair() {
    let input = obj(vec![("a", obj(vec![("#text", text(""))]))]);
    let xml = encode(&input).unwrap();
    assert_eq!(xml, format!("{}<a></a>", DECL));
}

#[test]
fn xml_declaration_is_ignored_on_decode() {
    let decoded = decode("<?xml version=\"1.0\" encoding=\"utf-8\"?><a>x</a>").unwrap();
    assert_eq!(decoded, obj(vec![("a", text("x"))]));
}

#[test]
fn cdata_sections_are_ignored() {
    let decoded = decode("<a><![CDATA[hi]]></a>").unwrap();
    assert_eq!(decoded, obj(vec![("a", obj(vec![]))]));
}

use seekstorm_core::index::document::DocError;
use seekstorm_core::json::{JsonNumber, JsonValue};
use seekstorm_core::lexical::analyzer::{aggregate, build_analyzer, AnalyzerError};
use seekstorm_core::lexical::value::{index_text, text_of_value};
use seekstorm_core::schema::field::{infer, FieldMeta};
use seekstorm_core::schema::inference::infer_field_type;
use seekstorm_core::{DynamicSchema, FieldType, SchemalessDoc, TokenizerType, VectorSimilarity};

fn json(text: &str) -> JsonValue {
    JsonValue::from_text(text).unwrap()
}

fn floats(numbers: &[JsonNumber]) -> Vec<f32> {
    numbers
        .iter()
        .map(|n| match n {
            JsonNumber::PosInt(i) => *i as f64 as f32,
            JsonNumber::NegInt(i) => *i as f64 as f32,
            JsonNumber::Float(bits) => f64::from_bits(*bits) as f32,
        })
        .collect()
}

#[test]
fn test_from_json_basic() {
    let doc = SchemalessDoc::from_json(r#"{"title":"hello","count":42}"#).unwrap();
    assert_eq!(doc.fields.len(), 2);
    assert_eq!(doc.get("title").unwrap(), &JsonValue::String("hello".to_string()));
    assert_eq!(doc.get("count").unwrap(), &JsonValue::Number(JsonNumber::PosInt(42)));
}

#[test]
fn test_to_from_bytes_roundtrip() {
    let doc = SchemalessDoc::from_json(r#"{"title":"hello","count":42,"tags":["a","b"]}"#).unwrap();
    let bytes = doc.to_bytes().unwrap();
    let restored = SchemalessDoc::from_bytes(&bytes).unwrap();
    assert_eq!(restored.fields.len(), 3);
    assert_eq!(restored.get("title").unwrap(), &JsonValue::String("hello".to_string()));
    assert_eq!(restored.get("count").unwrap(), &JsonValue::Number(JsonNumber::PosInt(42)));
    assert_eq!(restored.get("tags").unwrap(), &json(r#"["a","b"]"#));
}

#[test]
fn test_get_vector_field() {
    let doc = SchemalessDoc::from_json(r#"{"title":"x","vec":[1.0,2.0,3.0]}"#).unwrap();
    let (name, vec) = doc.get_vector_field().unwrap();
    assert_eq!(name, "vec");
    assert_eq!(floats(&vec), vec![1.0f32, 2.0, 3.0]);
}

#[test]
fn test_get_vector_field_integer() {
    let doc = SchemalessDoc::from_json(r#"{"v":[1,2,3]}"#).unwrap();
    let (_name, vec) = doc.get_vector_field().unwrap();
    assert_eq!(floats(&vec), vec![1.0f32, 2.0, 3.0]);
}

#[test]
fn test_no_vector_field() {
    let doc = SchemalessDoc::from_json(r#"{"title":"x"}"#).unwrap();
    assert!(doc.get_vector_field().is_none());
}

#[test]
fn test_bad_magic_rejected() {
    let bad = b"XXXX0000";
    assert!(SchemalessDoc::from_bytes(bad).is_err());
    assert!(matches!(SchemalessDoc::from_bytes(bad), Err(DocError::BadMagic)));
}

#[test]
fn first_vector_field_counts() {
    let doc = SchemalessDoc::from_json(r#"{"a":[],"b":[1,"x"],"c":[-4,2],"d":[5,6]}"#).unwrap();
    let (name, vec) = doc.get_vector_field().unwrap();
    assert_eq!(name, "c");
    assert_eq!(vec, vec![JsonNumber::NegInt(-4), JsonNumber::PosInt(2)]);
}

#[test]
fn document_bytes_are_framed() {
    let mut doc = SchemalessDoc::new();
    doc.insert("k".to_string(), JsonValue::Bool(true));
    let bytes = doc.to_bytes().unwrap();
    let mut expected = b"SKMD".to_vec();
    expected.extend_from_slice(&[0, 0, 0, 1, 0, 0, 0, 1, b'k', 0, 0, 0, 4]);
    expected.extend_from_slice(b"true");
    assert_eq!(bytes, expected);
}

#[test]
fn document_errors() {
    assert!(matches!(SchemalessDoc::from_json("{"), Err(DocError::Json)));
    assert!(matches!(SchemalessDoc::from_json("[1]"), Err(DocError::NotAnObject)));
    assert!(matches!(SchemalessDoc::from_value(&JsonValue::Null), Err(DocError::NotAnObject)));
    assert!(matches!(SchemalessDoc::from_value_owned(JsonValue::Null), Err(DocError::NotAnObject)));
    let mut doc = SchemalessDoc::new();
    doc.insert("k".to_string(), JsonValue::Bool(true));
    let good = doc.to_bytes().unwrap();
    let error = |bytes: &[u8]| match SchemalessDoc::from_bytes(bytes) {
        Err(e) => e,
        Ok(_) => panic!("the document was read"),
    };
    assert_eq!(error(&good[..7]), DocError::TooShort { len: 7 });
    assert_eq!(error(&good[..11]), DocError::TruncatedNameLen);
    assert_eq!(error(&good[..12]), DocError::TruncatedName);
    assert_eq!(error(&good[..16]), DocError::TruncatedValueLen);
    assert_eq!(error(&good[..20]), DocError::TruncatedValue);
    let mut utf8 = good.clone();
    utf8[12] = 0xff;
    assert_eq!(error(&utf8), DocError::NameNotUtf8);
    let mut text = good.clone();
    text[17] = b'x';
    assert_eq!(error(&text), DocError::Json);
}

#[test]
fn inserting_a_name_again_replaces_the_value() {
    let mut doc = SchemalessDoc::new();
    doc.insert("b".to_string(), JsonValue::Null);
    doc.insert("a".to_string(), JsonValue::Bool(true));
    doc.insert("b".to_string(), JsonValue::Bool(false));
    assert_eq!(doc.fields().len(), 2);
    assert_eq!(doc.fields().name_at(0), "b");
    assert_eq!(doc.get("b"), Some(&JsonValue::Bool(false)));
    assert_eq!(doc.get("c"), None);
}

#[test]
fn json_texts_are_read_and_written() {
    let value = json(r#" {"b" : [1, -2, 0.5, null], "a": {"x": "ä"}} "#);
    let written = value.to_vec().unwrap();
    assert_eq!(written, "{\"a\":{\"x\":\"ä\"},\"b\":[1,-2,0.5,null]}".as_bytes());
    assert_eq!(JsonValue::from_slice(&written).unwrap(), value);
    assert!(JsonValue::from_slice(b"{]").is_none());
    assert!(JsonValue::from_text("18446744073709551615").unwrap().is_number());
    assert_eq!(json("0.5"), JsonValue::Number(JsonNumber::Float(0.5f64.to_bits())));
    assert!(!json("\"5\"").is_number());
}

#[test]
fn test_infer_text() {
    let v = JsonValue::String("hello".to_string());
    assert!(matches!(infer_field_type(&v), FieldType::Text));
}

#[test]
fn test_infer_datetime() {
    let v = JsonValue::String("2026-07-21T10:30:00Z".to_string());
    assert!(matches!(infer_field_type(&v), FieldType::DateTime));
}

#[test]
fn test_infer_numbers() {
    assert!(matches!(infer_field_type(&json("42")), FieldType::I64));
    assert!(matches!(infer_field_type(&json("-1")), FieldType::I64));
    assert!(matches!(infer_field_type(&json("3.14")), FieldType::F64));
}

#[test]
fn test_infer_vector() {
    let v = json("[1.0, 2.0, 3.0]");
    match infer_field_type(&v) {
        FieldType::Vector(dim, sim) => {
            assert_eq!(dim, 3);
            assert!(matches!(sim, VectorSimilarity::Cosine));
        }
        other => panic!("expected Vector, got {:?}", other),
    }
}

#[test]
fn test_infer_array() {
    let v = json(r#"["a", "b"]"#);
    match infer_field_type(&v) {
        FieldType::Array(inner) => assert!(matches!(*inner, FieldType::Text)),
        other => panic!("expected Array, got {:?}", other),
    }
}

#[test]
fn other_values_are_inferred() {
    assert_eq!(infer_field_type(&json("true")), FieldType::Bool);
    assert_eq!(infer_field_type(&json("18446744073709551615")), FieldType::U64);
    assert_eq!(infer_field_type(&json("9223372036854775807")), FieldType::I64);
    assert_eq!(infer_field_type(&json("null")), FieldType::Bytes);
    assert_eq!(infer_field_type(&json("{}")), FieldType::Bytes);
    assert_eq!(infer_field_type(&json("\"2026-07-21\"")), FieldType::Text);
    assert_eq!(infer(&json("[[1]]")), infer_field_type(&json("[[1]]")));
}

#[test]
fn field_types_are_compatible_with_themselves() {
    let v3 = FieldType::Vector(3, VectorSimilarity::Cosine);
    let v4 = FieldType::Vector(4, VectorSimilarity::Cosine);
    let l2 = FieldType::Vector(3, VectorSimilarity::L2);
    assert!(v3.compatible(&v4));
    assert!(!v3.compatible(&l2));
    assert!(v3.is_vector());
    assert!(!FieldType::Text.is_vector());
    assert!(!FieldType::I64.compatible(&FieldType::U64));
    let a = FieldType::Array(Box::new(FieldType::Text));
    let b = FieldType::Array(Box::new(FieldType::I64));
    assert!(a.compatible(&a));
    assert!(!a.compatible(&b));
    assert!(!a.compatible(&FieldType::Text));
}

#[test]
fn fields_are_indexed_by_their_type() {
    let text = FieldMeta::new(3, "t".to_string(), FieldType::Text);
    assert_eq!(text.id, 3);
    assert!(text.index_lexical);
    assert!(!text.index_vector);
    assert_eq!(text.vector_dim, None);
    let vector = FieldMeta::new(4, "v".to_string(), FieldType::Vector(7, VectorSimilarity::Cosine));
    assert!(!vector.index_lexical);
    assert!(vector.index_vector);
    assert_eq!(vector.vector_dim, Some(7));
    let number = FieldMeta::new(5, "n".to_string(), FieldType::I64);
    assert!(number.index_lexical);
    assert!(!number.index_vector);
    assert_eq!(number.tokenizer, None);
    let scalars =
        [FieldType::U64, FieldType::F64, FieldType::Bool, FieldType::DateTime, FieldType::Bytes, FieldType::Text];
    for scalar in scalars {
        assert!(FieldMeta::new(6, "s".to_string(), scalar).index_lexical);
    }
    let array = FieldMeta::new(7, "a".to_string(), FieldType::Array(Box::new(FieldType::Text)));
    assert!(!array.index_lexical);
    assert!(!array.index_vector);
}

#[test]
fn one_number_is_no_vector() {
    let one = JsonValue::from_text("[5]").unwrap();
    assert_eq!(infer_field_type(&one), FieldType::Array(Box::new(FieldType::I64)));
    let fraction = JsonValue::from_text("[0.5]").unwrap();
    assert_eq!(infer_field_type(&fraction), FieldType::Array(Box::new(FieldType::F64)));
    let two = JsonValue::from_text("[5,6]").unwrap();
    assert_eq!(infer_field_type(&two), FieldType::Vector(2, VectorSimilarity::Cosine));
}

#[test]
fn values_have_texts() {
    let text = |json: &str| text_of_value(&JsonValue::from_text(json).unwrap());
    assert_eq!(text("42").unwrap(), "42");
    assert_eq!(text("0").unwrap(), "0");
    assert_eq!(text("-17").unwrap(), "-17");
    assert_eq!(text("-9223372036854775808").unwrap(), "-9223372036854775808");
    assert_eq!(text("18446744073709551615").unwrap(), "18446744073709551615");
    assert_eq!(text("3.25").unwrap(), "3.25");
    assert_eq!(text("true").unwrap(), "true");
    assert_eq!(text("false").unwrap(), "false");
    assert_eq!(text("\"x y\"").unwrap(), "x y");
    assert!(text("null").is_none());
    assert!(text("[1]").is_none());
    let five = JsonValue::from_text("5").unwrap();
    assert_eq!(index_text(&FieldType::I64, &five).unwrap(), "5");
    assert!(index_text(&FieldType::Text, &five).is_none());
}

#[test]
fn test_infer_and_add_basic() {
    let mut schema = DynamicSchema::new();
    let doc = SchemalessDoc::from_json(r#"{"title":"hello","count":42,"tags":["a","b"]}"#).unwrap();
    let changes = schema.infer_and_add(&doc).unwrap();
    assert_eq!(changes.len(), 3);

    let title = schema.get_field("title").unwrap();
    assert!(matches!(title.data_type, FieldType::Text));

    let count = schema.get_field("count").unwrap();
    assert!(matches!(count.data_type, FieldType::I64));

    let tags = schema.get_field("tags").unwrap();
    assert!(matches!(tags.data_type, FieldType::Array(_)));
}

#[test]
fn test_infer_and_add_no_duplicate() {
    let mut schema = DynamicSchema::new();
    let doc1 = SchemalessDoc::from_json(r#"{"title":"a"}"#).unwrap();
    let changes1 = schema.infer_and_add(&doc1).unwrap();
    assert_eq!(changes1.len(), 1);

    let doc2 = SchemalessDoc::from_json(r#"{"title":"b","body":"c"}"#).unwrap();
    let changes2 = schema.infer_and_add(&doc2).unwrap();
    assert_eq!(changes2.len(), 1);
    assert_eq!(changes2[0].name, "body");
}

#[test]
fn test_schemaless_inference() {
    let mut schema = DynamicSchema::new();
    let doc = SchemalessDoc::from_json(r#"{"title":"hello","count":42,"tags":["a","b"]}"#).unwrap();
    let changes = schema.infer_and_add(&doc).unwrap();
    assert_eq!(changes.len(), 3);
    assert!(matches!(schema.get_field("title").unwrap().data_type, FieldType::Text));
    assert!(matches!(schema.get_field("count").unwrap().data_type, FieldType::I64));
    assert!(matches!(schema.get_field("tags").unwrap().data_type, FieldType::Array(_)));
}

#[test]
fn schema_snapshot_round_trip() {
    let mut schema = DynamicSchema::default();
    let doc = SchemalessDoc::from_json(r#"{"title":"x","count":1}"#).unwrap();
    schema.infer_and_add(&doc).unwrap();
    let restored = DynamicSchema::from_snapshot(schema.to_snapshot());
    assert_eq!(restored.field_count(), 2);
    assert!(restored.get_field("title").is_some());
    assert!(restored.get_field("count").is_some());
    let ids: Vec<u32> = restored.snapshot().iter().map(|m| m.id).collect();
    let before: Vec<u32> = schema.snapshot().iter().map(|m| m.id).collect();
    assert_eq!(ids, before);
    assert_eq!(schema.to_snapshot().next_field_id, 2);
}

#[test]
fn schema_conflict_names_the_field() {
    let mut schema = DynamicSchema::new();
    schema.infer_and_add(&SchemalessDoc::from_json(r#"{"count":42}"#).unwrap()).unwrap();
    let conflict = schema
        .infer_and_add(&SchemalessDoc::from_json(r#"{"a":1,"count":"text","z":1}"#).unwrap())
        .unwrap_err();
    assert_eq!(conflict.name, "count");
    assert_eq!(conflict.existing, FieldType::I64);
    assert_eq!(conflict.inferred, FieldType::Text);
    assert!(schema.get_field("a").is_some());
    assert!(schema.get_field("z").is_none());
}

#[test]
fn test_default_analyzer() {
    let analyzer = build_analyzer(&TokenizerType::Default).unwrap();
    let tokens = analyzer.tokens("Hello World 测试");
    assert_eq!(tokens, vec!["hello", "world", "测试"]);
}

#[test]
fn test_ngram_analyzer() {
    let analyzer = build_analyzer(&TokenizerType::Ngram { n: 2 }).unwrap();
    let tokens = analyzer.tokens("hello");
    assert_eq!(tokens, vec!["he", "el", "ll", "lo"]);
}

#[test]
fn analyzers_at_their_edges() {
    let raw = build_analyzer(&TokenizerType::Raw).unwrap();
    assert_eq!(raw.tokens("Hello World"), vec!["Hello World"]);
    assert_eq!(raw.tokens(""), vec![""]);
    let three = build_analyzer(&TokenizerType::Ngram { n: 3 }).unwrap();
    assert!(three.tokens("ab").is_empty());
    assert_eq!(three.tokens("ÄBC"), vec!["äbc"]);
    assert_eq!(build_analyzer(&TokenizerType::Ngram { n: 0 }), Err(AnalyzerError { n: 0 }));
    let words = build_analyzer(&TokenizerType::Default).unwrap();
    assert!(words.tokens(" ,.;").is_empty());
}

#[test]
fn terms_are_listed_with_their_positions() {
    let tokens: Vec<String> = ["a", "b", "a", "c", "a"].iter().map(|t| t.to_string()).collect();
    let found = aggregate(&tokens);
    assert_eq!(found.len(), 3);
    assert_eq!(found.name_at(0), "a");
    assert_eq!(found.value_at(0), &vec![0, 2, 4]);
    assert_eq!(found.get("b"), Some(&vec![1]));
    assert_eq!(found.get("c"), Some(&vec![3]));
}

#[test]
fn every_prefix_of_a_document_is_refused() {
    let doc = SchemalessDoc::from_json(r#"{"a":"x","b":[1,2],"c":null}"#).unwrap();
    let bytes = doc.to_bytes().unwrap();
    for cut in 0..bytes.len() {
        assert!(SchemalessDoc::from_bytes(&bytes[..cut]).is_err());
    }
    assert!(SchemalessDoc::from_bytes(&bytes).is_ok());
}

use derived_cms::entity::{EntityDescriptor, FieldOptions};
use derived_cms::form::{decode_value, encode_fields, lookup_field, path_of, DecodeError, FormField};
use derived_cms::name_path::{child_name, encode_path, index_segment, parse_index, parse_name};
use derived_cms::property::{File, Image, Markdown, PropertyValue, Text, Timestamp};
use derived_cms::schema::{Kind, RenameAll, Schema, SchemaError, UnionKind, VariantKind};
use derived_cms::submission::{upload_file_name, FormCollector, PartAction};

fn field(path: &[&str], value: &str) -> FormField {
    FormField {
        path: path.iter().map(|s| s.to_string()).collect(),
        value: value.to_string(),
    }
}

fn block_schema() -> (Schema, usize) {
    let mut schema = Schema::new();
    let markdown = schema.add(Kind::Markdown).unwrap();
    let block = schema
        .add(Kind::Union(UnionKind {
            tag: "type".to_string(),
            content: "data".to_string(),
            variants: vec![
                VariantKind { name: "separator".to_string(), payload: None },
                VariantKind { name: "text".to_string(), payload: Some(markdown) },
            ],
        }))
        .unwrap();
    let list = schema.add(Kind::List(block)).unwrap();
    (schema, list)
}

fn option(ident: &str, kind: usize, id: bool) -> FieldOptions {
    FieldOptions {
        ident: ident.to_string(),
        kind,
        id,
        skip_column: false,
        skip_input: id,
        rename: None,
        column_hidden: false,
    }
}

#[test]
fn names_in_bracket_notation() {
    let n = child_name("content", &index_segment(2));
    assert_eq!(child_name(&n, "alt_text"), "content[2][alt_text]");
    let path = vec!["content".to_string(), "0".to_string(), "type".to_string()];
    assert_eq!(encode_path(&path), "content[0][type]");
    assert_eq!(parse_name("content[0][type]"), Some(path));
    assert_eq!(parse_name("title"), Some(vec!["title".to_string()]));
    assert_eq!(parse_name("content[]"), Some(vec!["content".to_string(), String::new()]));
    assert_eq!(parse_name("a]b"), None);
    assert_eq!(parse_name("a[b"), None);
    assert_eq!(parse_name("a[b]c"), None);
}

#[test]
fn list_indices_are_canonical_decimals() {
    assert_eq!(index_segment(0), "0");
    assert_eq!(index_segment(1234), "1234");
    assert_eq!(parse_index("17"), Some(17));
    assert_eq!(parse_index("0"), Some(0));
    assert_eq!(parse_index("07"), None);
    assert_eq!(parse_index(""), None);
    assert_eq!(parse_index("1a"), None);
    assert_eq!(parse_index("99999999999999999999999"), None);
}

#[test]
fn post_form_decodes_title_and_checkbox() {
    let mut schema = Schema::new();
    let text = schema.add(Kind::Text).unwrap();
    let boolean = schema.add(Kind::Boolean).unwrap();
    let uuid = schema.add(Kind::Uuid).unwrap();
    let post = EntityDescriptor::describe(
        &schema,
        "Post".to_string(),
        None,
        None,
        vec![option("id", uuid, true), option("title", text, false), option("draft", boolean, false)],
    )
    .unwrap();
    let mut form = FormCollector::new();
    form.add_text("title".to_string(), "Hello".to_string());
    form.add_text("draft".to_string(), "on".to_string());
    let values = form.finish(&schema, &post).unwrap();
    assert_eq!(values.len(), 2);
    match &values[0] {
        PropertyValue::Text(t) => assert_eq!(t.0, "Hello"),
        other => panic!("unexpected {other:?}"),
    }
    assert!(matches!(values[1], PropertyValue::Boolean(true)));
}

#[test]
fn unchecked_checkbox_is_false() {
    let mut schema = Schema::new();
    let boolean = schema.add(Kind::Boolean).unwrap();
    let v = decode_value(&schema, boolean, &vec![]).unwrap();
    assert!(matches!(v, PropertyValue::Boolean(false)));
    let bad = decode_value(&schema, boolean, &vec![field(&[], "yes")]);
    assert!(matches!(bad, Err(DecodeError::InvalidBoolean)));
}

#[test]
fn list_of_tagged_blocks_decodes() {
    let (schema, list) = block_schema();
    let entity = EntityDescriptor::describe(
        &schema,
        "Page".to_string(),
        None,
        None,
        vec![option("id", list, true), option("content", list, false)],
    )
    .unwrap();
    let mut form = FormCollector::new();
    form.add_text("content[0][type]".to_string(), "text".to_string());
    form.add_text("content[0][data]".to_string(), "Hi".to_string());
    let values = form.finish(&schema, &entity).unwrap();
    match &values[0] {
        PropertyValue::List(items) => {
            assert_eq!(items.len(), 1);
            match &items[0] {
                PropertyValue::Variant(name, Some(payload)) => {
                    assert_eq!(name, "text");
                    match payload.as_ref() {
                        PropertyValue::Markdown(m) => assert_eq!(m.0, "Hi"),
                        other => panic!("unexpected {other:?}"),
                    }
                }
                other => panic!("unexpected {other:?}"),
            }
        }
        other => panic!("unexpected {other:?}"),
    }
}

#[test]
fn stray_content_for_other_variants_is_ignored() {
    let (schema, list) = block_schema();
    let fields = vec![
        field(&["0", "type"], "text"),
        field(&["0", "data"], "Hi"),
        field(&["0", "data", "id_old"], "not-a-uuid"),
        field(&["0", "data", "alt_text"], "stray"),
    ];
    let v = decode_value(&schema, list, &fields).unwrap();
    match v {
        PropertyValue::List(items) => match &items[0] {
            PropertyValue::Variant(name, Some(p)) => {
                assert_eq!(name, "text");
                assert!(matches!(p.as_ref(), PropertyValue::Markdown(m) if m.0 == "Hi"));
            }
            other => panic!("unexpected {other:?}"),
        },
        other => panic!("unexpected {other:?}"),
    }
}

#[test]
fn list_round_trips_in_order() {
    let (schema, list) = block_schema();
    for n in 0..4usize {
        let items: Vec<PropertyValue> = (0..n)
            .map(|i| {
                if i % 2 == 0 {
                    PropertyValue::Variant(
                        "text".to_string(),
                        Some(Box::new(PropertyValue::Markdown(Markdown(format!("block {i}"))))),
                    )
                } else {
                    PropertyValue::Variant("separator".to_string(), None)
                }
            })
            .collect();
        let fields = encode_fields(&schema, list, &PropertyValue::List(items));
        match decode_value(&schema, list, &fields).unwrap() {
            PropertyValue::List(out) => {
                assert_eq!(out.len(), n);
                for (i, v) in out.iter().enumerate() {
                    match v {
                        PropertyValue::Variant(name, Some(p)) => {
                            assert_eq!(name, "text");
                            assert!(matches!(p.as_ref(), PropertyValue::Markdown(m) if m.0 == format!("block {i}")));
                        }
                        PropertyValue::Variant(name, None) => assert_eq!(name, "separator"),
                        other => panic!("unexpected {other:?}"),
                    }
                }
            }
            other => panic!("unexpected {other:?}"),
        }
    }
}

#[test]
fn sparse_list_indices_are_refused() {
    let mut schema = Schema::new();
    let text = schema.add(Kind::Text).unwrap();
    let list = schema.add(Kind::List(text)).unwrap();
    let fields = vec![field(&["0"], "a"), field(&["2"], "c")];
    assert!(matches!(decode_value(&schema, list, &fields), Err(DecodeError::SparseIndex)));
}

#[test]
fn first_field_wins() {
    let fields = vec![field(&["x"], "first"), field(&["x"], "second")];
    assert_eq!(lookup_field(&fields, &path_of("x")), Some("first".to_string()));
}

#[test]
fn filename_with_slash_is_refused() {
    assert_eq!(
        FormCollector::part_action(true, &Some("../etc/passwd".to_string())),
        PartAction::Fail(DecodeError::FilenameSlash)
    );
    assert_eq!(FormCollector::part_action(true, &Some("a.png".to_string())), PartAction::StoreFile);
    assert_eq!(FormCollector::part_action(true, &Some(String::new())), PartAction::Skip);
    assert_eq!(FormCollector::part_action(true, &None), PartAction::ReadText);
    assert_eq!(FormCollector::part_action(false, &None), PartAction::Fail(DecodeError::NameMissing));
}

#[test]
fn image_without_new_upload_keeps_previous_file() {
    let mut schema = Schema::new();
    let image = schema.add(Kind::Image).unwrap();
    let id: u128 = 0x67e55044_10b1_426f_9247_bb680e5fe0c8;
    let value = PropertyValue::Image(Image {
        file: File::new(id, "cat.png".to_string()),
        alt_text: "a cat".to_string(),
    });
    let fields = encode_fields(&schema, image, &value);
    let names: Vec<String> = fields.iter().map(|f| encode_path(&f.path)).collect();
    assert_eq!(names, vec!["id_old", "name_old", "alt_text"]);
    assert_eq!(fields[0].value, "67e55044-10b1-426f-9247-bb680e5fe0c8");
    match decode_value(&schema, image, &fields).unwrap() {
        PropertyValue::Image(img) => {
            assert_eq!(img.file.id, id);
            assert_eq!(img.file.name, "cat.png");
            assert_eq!(img.alt_text, "a cat");
        }
        other => panic!("unexpected {other:?}"),
    }
}

#[test]
fn new_upload_replaces_previous_file() {
    let mut schema = Schema::new();
    let file = schema.add(Kind::File).unwrap();
    let fields = vec![
        field(&["name"], "new.txt"),
        field(&["id"], "00000000-0000-0000-0000-000000000002"),
        field(&["id_old"], "00000000-0000-0000-0000-000000000001"),
        field(&["name_old"], "old.txt"),
    ];
    match decode_value(&schema, file, &fields).unwrap() {
        PropertyValue::File(f) => {
            assert_eq!(f.id, 2);
            assert_eq!(f.name, "new.txt");
        }
        other => panic!("unexpected {other:?}"),
    }
    let bad = vec![field(&["id"], "zzz"), field(&["name"], "x")];
    assert!(matches!(decode_value(&schema, file, &bad), Err(DecodeError::InvalidUuid)));
    assert!(matches!(decode_value(&schema, file, &vec![]), Err(DecodeError::MissingField)));
}

#[test]
fn uploaded_file_fields_are_named_after_the_input() {
    let mut form = FormCollector::new();
    form.add_file("cover", 1, "a b.png".to_string());
    assert_eq!(form.fields[0].name, "cover[name]");
    assert_eq!(form.fields[0].value, "a b.png");
    assert_eq!(form.fields[1].name, "cover[id]");
    assert_eq!(form.fields[1].value, "00000000-0000-0000-0000-000000000001");
}

#[test]
fn date_time_round_trips() {
    let mut schema = Schema::new();
    let dt = schema.add(Kind::DateTime).unwrap();
    let value = PropertyValue::DateTime(Timestamp { secs: 1431648000, nanos: 5_000_000 });
    let fields = encode_fields(&schema, dt, &value);
    assert_eq!(fields[0].value, "2015-05-15T00:00:00.005+00:00");
    match decode_value(&schema, dt, &fields).unwrap() {
        PropertyValue::DateTime(t) => assert_eq!(t, Timestamp { secs: 1431648000, nanos: 5_000_000 }),
        other => panic!("unexpected {other:?}"),
    }
    let bad = vec![field(&[], "yesterday")];
    assert!(matches!(decode_value(&schema, dt, &bad), Err(DecodeError::InvalidDateTime)));
}

#[test]
fn optional_absent_and_present() {
    let mut schema = Schema::new();
    let text = schema.add(Kind::Text).unwrap();
    let opt = schema.add(Kind::Optional(text)).unwrap();
    assert!(matches!(decode_value(&schema, opt, &vec![]).unwrap(), PropertyValue::Optional(None)));
    match decode_value(&schema, opt, &vec![field(&[], "x")]).unwrap() {
        PropertyValue::Optional(Some(b)) => assert!(matches!(b.as_ref(), PropertyValue::Text(Text(s)) if s == "x")),
        other => panic!("unexpected {other:?}"),
    }
    assert!(matches!(decode_value(&schema, text, &vec![]), Err(DecodeError::MissingField)));
}

#[test]
fn union_errors() {
    let (schema, list) = block_schema();
    let block = list - 1;
    assert!(matches!(
        decode_value(&schema, block, &vec![field(&["type"], "video")]),
        Err(DecodeError::UnknownVariant)
    ));
    assert!(matches!(decode_value(&schema, block, &vec![]), Err(DecodeError::MissingField)));
}

#[test]
fn malformed_names_are_refused() {
    let mut schema = Schema::new();
    let text = schema.add(Kind::Text).unwrap();
    let entity = EntityDescriptor::describe(
        &schema,
        "Note".to_string(),
        None,
        None,
        vec![option("id", text, true), option("body", text, false)],
    )
    .unwrap();
    let mut form = FormCollector::new();
    form.add_text("body]".to_string(), "x".to_string());
    assert!(matches!(form.finish(&schema, &entity), Err(DecodeError::MalformedName)));
}

#[test]
fn schema_refuses_bad_kinds() {
    let mut schema = Schema::new();
    assert_eq!(schema.add(Kind::List(0)).unwrap_err(), SchemaError::UnknownKind);
    let text = schema.add(Kind::Text).unwrap();
    let dup = Kind::Union(UnionKind {
        tag: "t".to_string(),
        content: "c".to_string(),
        variants: vec![
            VariantKind { name: "a".to_string(), payload: None },
            VariantKind { name: "a".to_string(), payload: Some(text) },
        ],
    });
    assert_eq!(schema.add(dup).unwrap_err(), SchemaError::DuplicateVariant);
    let same = Kind::Union(UnionKind { tag: "t".to_string(), content: "t".to_string(), variants: vec![] });
    assert_eq!(schema.add(same).unwrap_err(), SchemaError::TagIsContent);
    let bracket = Kind::Union(UnionKind { tag: "t[".to_string(), content: "c".to_string(), variants: vec![] });
    assert_eq!(schema.add(bracket).unwrap_err(), SchemaError::InvalidName);
    assert_eq!(schema.kinds.len(), 1);
}

#[test]
fn entity_names_and_columns() {
    let mut schema = Schema::new();
    let text = schema.add(Kind::Text).unwrap();
    let mut content = option("bodyText", text, false);
    content.skip_column = true;
    let mut renamed = option("subTitle", text, false);
    renamed.rename = Some("sub".to_string());
    renamed.column_hidden = true;
    let d = EntityDescriptor::describe(
        &schema,
        "BlogPost".to_string(),
        None,
        Some(RenameAll::Snake),
        vec![option("id", text, true), content, renamed],
    )
    .unwrap();
    assert_eq!(d.name, "blog_post");
    assert_eq!(d.name_plural, "blog_posts");
    assert_eq!(d.id_field, 0);
    assert_eq!(d.fields[1].name, "body_text");
    assert_eq!(d.fields[2].name, "sub");
    let cols = d.columns();
    assert_eq!(cols.len(), 2);
    assert_eq!(cols[0].name, "id");
    assert_eq!(cols[1].name, "sub");
    assert!(cols[1].hidden);
    assert_eq!(d.column_count(), 2);
    assert_eq!(d.input_fields(), vec![1, 2]);
    let named = EntityDescriptor::describe(&schema, "X".to_string(), Some("thing".to_string()), None, vec![option("id", text, true)]).unwrap();
    assert_eq!(named.name, "thing");
}

#[test]
fn entity_needs_exactly_one_id() {
    let mut schema = Schema::new();
    let text = schema.add(Kind::Text).unwrap();
    let none = EntityDescriptor::describe(&schema, "A".to_string(), None, None, vec![option("a", text, false)]);
    assert_eq!(none.unwrap_err(), SchemaError::MissingId);
    let two = EntityDescriptor::describe(&schema, "A".to_string(), None, None, vec![option("a", text, true), option("b", text, true)]);
    assert_eq!(two.unwrap_err(), SchemaError::DuplicateId);
    let unknown = EntityDescriptor::describe(&schema, "A".to_string(), None, None, vec![option("a", text, true), option("b", 9, false)]);
    assert_eq!(unknown.unwrap_err(), SchemaError::UnknownKind);
    let bad = EntityDescriptor::describe(&schema, "A".to_string(), None, None, vec![option("a", text, true), option("b[0]", text, false)]);
    assert_eq!(bad.unwrap_err(), SchemaError::InvalidName);
}

#[test]
fn entity_form_round_trips_through_names() {
    let (mut schema, list) = block_schema();
    let text = schema.add(Kind::Text).unwrap();
    let image = schema.add(Kind::Image).unwrap();
    let boolean = schema.add(Kind::Boolean).unwrap();
    let page = EntityDescriptor::describe(
        &schema,
        "Page".to_string(),
        None,
        None,
        vec![option("id", text, true), option("title", text, false), option("content", list, false), option("cover", image, false), option("draft", boolean, false)],
    )
    .unwrap();
    let values = vec![
        PropertyValue::Text(Text("A & B = C".to_string())),
        PropertyValue::List(vec![
            PropertyValue::Variant("text".to_string(), Some(Box::new(PropertyValue::Markdown(Markdown("Hi".to_string()))))),
            PropertyValue::Variant("separator".to_string(), None),
        ]),
        PropertyValue::Image(Image { file: File::new(5, "c.png".to_string()), alt_text: String::new() }),
        PropertyValue::Boolean(true),
    ];
    let named = derived_cms::submission::encode_entity_form(&schema, &page, &values);
    let names: Vec<&str> = named.iter().map(|f| f.name.as_str()).collect();
    assert_eq!(
        names,
        vec![
            "title",
            "content[0][type]",
            "content[0][data]",
            "content[1][type]",
            "cover[id_old]",
            "cover[name_old]",
            "cover[alt_text]",
            "draft"
        ]
    );
    let form = FormCollector { fields: named };
    let back = form.finish(&schema, &page).unwrap();
    assert_eq!(back.len(), 4);
    assert!(matches!(&back[0], PropertyValue::Text(t) if t.0 == "A & B = C"));
    match &back[1] {
        PropertyValue::List(items) => {
            assert_eq!(items.len(), 2);
            assert!(matches!(&items[1], PropertyValue::Variant(n, None) if n == "separator"));
        }
        other => panic!("unexpected {other:?}"),
    }
    assert!(matches!(&back[2], PropertyValue::Image(i) if i.file.id == 5 && i.file.name == "c.png" && i.alt_text.is_empty()));
    assert!(matches!(back[3], PropertyValue::Boolean(true)));
}

#[test]
fn upload_file_names_are_checked() {
    assert_eq!(upload_file_name(&None), Err(DecodeError::FilenameMissing));
    assert_eq!(upload_file_name(&Some(String::new())), Err(DecodeError::FilenameMissing));
    assert_eq!(upload_file_name(&Some("a/b.png".to_string())), Err(DecodeError::FilenameSlash));
    assert_eq!(upload_file_name(&Some("b.png".to_string())), Ok(()));
}

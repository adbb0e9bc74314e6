use derived_cms::dispatch::{created_location, step, FlowAction, FlowEvent, FlowState, Outcome};
use derived_cms::entity::{EntityDescriptor, FieldOptions};
use derived_cms::property::{File, Image, PropertyValue, Text};
use derived_cms::render::{
    add_href, display_name, entity_href, input_controls, placement, selected_variant, sidebar_links,
    Control, Placement,
};
use derived_cms::schema::{Kind, Schema, UnionKind, VariantKind};
use derived_cms::submission::FormCollector;

fn union() -> UnionKind {
    UnionKind {
        tag: "type".to_string(),
        content: "data".to_string(),
        variants: vec![
            VariantKind { name: "separator".to_string(), payload: None },
            VariantKind { name: "text".to_string(), payload: Some(0) },
        ],
    }
}

#[test]
fn text_input_is_named_and_required() {
    let mut schema = Schema::new();
    let text = schema.add(Kind::Text).unwrap();
    let v = PropertyValue::Text(Text("Hello".to_string()));
    let cs = input_controls(&schema, text, Some(&v), "title", "Title", true);
    match &cs[..] {
        [Control::Text { name, placeholder, value, required }] => {
            assert_eq!(name, "title");
            assert_eq!(placeholder, "Title");
            assert_eq!(value.as_deref(), Some("Hello"));
            assert!(*required);
        }
        other => panic!("unexpected {other:?}"),
    }
}

#[test]
fn optional_input_is_not_required() {
    let mut schema = Schema::new();
    let text = schema.add(Kind::Text).unwrap();
    let opt = schema.add(Kind::Optional(text)).unwrap();
    let cs = input_controls(&schema, opt, None, "subtitle", "Subtitle", true);
    assert!(matches!(&cs[..], [Control::Text { required: false, value: None, .. }]));
}

#[test]
fn image_input_keeps_previous_file_in_hidden_fields() {
    let mut schema = Schema::new();
    let image = schema.add(Kind::Image).unwrap();
    let v = PropertyValue::Image(Image { file: File::new(1, "cat.png".to_string()), alt_text: "cat".to_string() });
    let cs = input_controls(&schema, image, Some(&v), "cover", "Cover", true);
    match &cs[..] {
        [Control::File { name, previous: Some(((n1, v1), (n2, v2))), required, images_only }, Control::AltText { name: alt, value }] => {
            assert_eq!(name, "cover");
            assert_eq!(n1, "cover[id_old]");
            assert_eq!(v1, "00000000-0000-0000-0000-000000000001");
            assert_eq!(n2, "cover[name_old]");
            assert_eq!(v2, "cat.png");
            assert!(!*required);
            assert!(*images_only);
            assert_eq!(alt, "cover[alt_text]");
            assert_eq!(value.as_deref(), Some("cat"));
        }
        other => panic!("unexpected {other:?}"),
    }
    let empty = input_controls(&schema, image, None, "cover", "Cover", true);
    assert!(matches!(&empty[0], Control::File { previous: None, required: true, .. }));
}

#[test]
fn list_input_names_items_and_template() {
    let mut schema = Schema::new();
    let text = schema.add(Kind::Text).unwrap();
    let list = schema.add(Kind::List(text)).unwrap();
    let v = PropertyValue::List(vec![
        PropertyValue::Text(Text("a".to_string())),
        PropertyValue::Text(Text("b".to_string())),
    ]);
    let cs = input_controls(&schema, list, Some(&v), "tags.x", "Tags", true);
    match &cs[..] {
        [Control::List { name, pattern, items, template }] => {
            assert_eq!(name, "tags.x");
            assert_eq!(pattern, "tags\\.x");
            assert_eq!(items.len(), 2);
            assert!(matches!(&items[1][..], [Control::Text { name, .. }] if name == "tags.x[1]"));
            assert!(matches!(&template[..], [Control::Text { name, value: None, .. }] if name == "tags.x[]"));
        }
        other => panic!("unexpected {other:?}"),
    }
}

#[test]
fn union_input_selects_the_shown_variant() {
    let mut schema = Schema::new();
    schema.add(Kind::Markdown).unwrap();
    let u = schema.add(Kind::Union(union())).unwrap();
    let v = PropertyValue::Variant("text".to_string(), Some(Box::new(PropertyValue::Markdown(derived_cms::property::Markdown("Hi".to_string())))));
    let cs = input_controls(&schema, u, Some(&v), "content[0]", "Content", true);
    match &cs[..] {
        [Control::Union { tag_name, selected, variants }] => {
            assert_eq!(tag_name, "content[0][type]");
            assert_eq!(*selected, 1);
            assert_eq!(variants[0].value, "separator");
            assert_eq!(variants[0].label, "Separator");
            assert_eq!(variants[0].placement, Placement::Before);
            assert_eq!(variants[1].placement, Placement::Selected);
            assert!(variants[0].content.is_empty());
            assert!(matches!(&variants[1].content[..], [Control::Markdown { name, value, .. }] if name == "content[0][data]" && value == "Hi"));
        }
        other => panic!("unexpected {other:?}"),
    }
    assert_eq!(selected_variant(&union(), None), 0);
    assert_eq!(placement(2, 1), Placement::After);
}

#[test]
fn sidebar_and_links() {
    let links = sidebar_links(&vec!["blog_posts".to_string(), "pages".to_string()], "pages");
    assert_eq!(links[0].href, "/blog-posts");
    assert_eq!(links[0].label, "Blog Posts");
    assert!(!links[0].active);
    assert!(links[1].active);
    assert_eq!(display_name("blog_post"), "Blog Post");
    assert_eq!(add_href("blog_posts"), "/blog-posts/add");
    assert_eq!(entity_href("blog_post", "a/b"), "/blog-post/a%2Fb");
}

#[test]
fn post_is_created_and_redirected() {
    let mut schema = Schema::new();
    let text = schema.add(Kind::Text).unwrap();
    let boolean = schema.add(Kind::Boolean).unwrap();
    let uuid = schema.add(Kind::Uuid).unwrap();
    let opt = |ident: &str, kind: usize, id: bool| FieldOptions {
        ident: ident.to_string(),
        kind,
        id,
        skip_column: false,
        skip_input: id,
        rename: None,
        column_hidden: false,
    };
    let post = EntityDescriptor::describe(&schema, "Post".to_string(), None, None, vec![opt("id", uuid, true), opt("title", text, false), opt("draft", boolean, false)]).unwrap();
    let mut form = FormCollector::new();
    form.add_text("title".to_string(), "Hello".to_string());
    form.add_text("draft".to_string(), "on".to_string());
    let values = form.finish(&schema, &post).unwrap();
    assert!(matches!(&values[0], PropertyValue::Text(t) if t.0 == "Hello"));
    assert!(matches!(values[1], PropertyValue::Boolean(true)));
    let mut state = FlowState::Start;
    let mut actions = Vec::new();
    for e in [FlowEvent::Begin, FlowEvent::Extracted, FlowEvent::HookPassed, FlowEvent::Stored] {
        let (next, a) = step(state, e);
        state = next;
        actions.push(a);
    }
    assert_eq!(actions[2], FlowAction::CallStore);
    assert_eq!(actions[3], FlowAction::Respond(Outcome::Success));
    let new_id = "67e55044-10b1-426f-9247-bb680e5fe0c8";
    assert_eq!(created_location(&post.name, new_id), format!("/post/{new_id}"));
}

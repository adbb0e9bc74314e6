use derived_cms::context::{Context, ContextTrait};
use derived_cms::dispatch::{
    created_location, deleted_location, entity_routes, path_name_of, step, Capabilities, FlowAction,
    FlowEvent, FlowState, Handler, Method, Outcome,
};
use derived_cms::property::File;
use derived_cms::upload::{check_editor_upload, AppError, EditorConfig, UploadError, UploadSuccess};

const ALL: Capabilities = Capabilities { get: true, list: true, create: true, update: true, delete: true };

#[test]
fn routes_for_all_capabilities() {
    let routes = entity_routes("blog_post", "blog_posts", ALL);
    let got: Vec<(Method, String, Handler)> =
        routes.iter().map(|r| (r.method, r.path.clone(), r.handler)).collect();
    let want = vec![
        (Method::Get, "/api/v1/blog-posts", Handler::ApiList),
        (Method::Get, "/api/v1/blog-post/:id", Handler::ApiGet),
        (Method::Post, "/api/v1/blog-posts", Handler::ApiCreate),
        (Method::Post, "/api/v1/blog-post/:id", Handler::ApiUpdate),
        (Method::Delete, "/api/v1/blog-post/:id", Handler::ApiDelete),
        (Method::Get, "/blog-posts", Handler::UiList),
        (Method::Get, "/blog-post/:id", Handler::UiGet),
        (Method::Post, "/blog-post/:id", Handler::UiUpdate),
        (Method::Get, "/blog-posts/add", Handler::UiAddForm),
        (Method::Post, "/blog-posts/add", Handler::UiCreate),
        (Method::Post, "/blog-post/:id/delete", Handler::UiDelete),
    ];
    let want: Vec<(Method, String, Handler)> =
        want.into_iter().map(|(m, p, h)| (m, p.to_string(), h)).collect();
    assert_eq!(got, want);
}

#[test]
fn append_only_entity_gets_no_update_or_delete_routes() {
    let caps = Capabilities { update: false, delete: false, ..ALL };
    let routes = entity_routes("log", "logs", caps);
    assert_eq!(routes.len(), 7);
    assert!(routes.iter().all(|r| !matches!(
        r.handler,
        Handler::ApiUpdate | Handler::ApiDelete | Handler::UiUpdate | Handler::UiDelete
    )));
}

#[test]
fn path_names_are_kebab_and_encoded() {
    assert_eq!(path_name_of("BlogPost"), "blog-post");
    assert_eq!(path_name_of("caf\u{e9}"), "caf%C3%A9");
}

#[test]
fn create_redirects_to_new_entity() {
    assert_eq!(
        created_location("post", "67e55044-10b1-426f-9247-bb680e5fe0c8"),
        "/post/67e55044-10b1-426f-9247-bb680e5fe0c8"
    );
    assert_eq!(created_location("BlogPost", "a b"), "/blog-post/a%20b");
    assert_eq!(deleted_location("BlogPost"), "/blog-post");
}

fn run(events: &[FlowEvent]) -> Vec<FlowAction> {
    let mut s = FlowState::Start;
    let mut out = Vec::new();
    for e in events {
        let (next, a) = step(s, *e);
        s = next;
        out.push(a);
    }
    out
}

#[test]
fn create_runs_hook_then_store_then_redirects() {
    let acts = run(&[FlowEvent::Begin, FlowEvent::Extracted, FlowEvent::HookPassed, FlowEvent::Stored]);
    assert_eq!(
        acts,
        vec![
            FlowAction::ExtractExtension,
            FlowAction::RunHook,
            FlowAction::CallStore,
            FlowAction::Respond(Outcome::Success)
        ]
    );
}

#[test]
fn failed_delete_hook_never_reaches_store() {
    let acts = run(&[
        FlowEvent::Begin,
        FlowEvent::Extracted,
        FlowEvent::HookFailed,
        FlowEvent::HookPassed,
        FlowEvent::Stored,
    ]);
    assert_eq!(acts[2], FlowAction::Respond(Outcome::HookError));
    assert!(!acts.contains(&FlowAction::CallStore));
}

#[test]
fn other_failures_respond_with_their_kind() {
    assert_eq!(
        run(&[FlowEvent::Begin, FlowEvent::ExtractFailed]),
        vec![FlowAction::ExtractExtension, FlowAction::Respond(Outcome::ExtensionError)]
    );
    let acts = run(&[FlowEvent::Begin, FlowEvent::Extracted, FlowEvent::HookPassed, FlowEvent::StoreFailed]);
    assert_eq!(acts[3], FlowAction::Respond(Outcome::StoreError));
    assert_eq!(step(FlowState::Start, FlowEvent::HookPassed), (FlowState::Start, FlowAction::Nothing));
}

#[test]
fn editor_config_builders() {
    let c = EditorConfig::default();
    assert!(c.enable_uploads);
    assert_eq!(c.upload_max_size, 2 * 1024 * 1024);
    assert_eq!(c.allowed_file_types, vec!["image/png".to_string(), "image/jpeg".to_string()]);
    let c = c.enable_uploads(false).upload_max_size(10).allow_file_type("image/gif".to_string());
    assert!(!c.enable_uploads);
    assert_eq!(c.upload_max_size, 10);
    assert_eq!(c.allowed_file_types.len(), 3);
    let c = c.allowed_file_types(vec!["text/plain".to_string()]);
    assert_eq!(c.allowed_file_types, vec!["text/plain".to_string()]);
}

#[test]
fn editor_uploads_are_checked() {
    let c = EditorConfig::default();
    let png = Some("image/png".to_string());
    assert_eq!(check_editor_upload(&c, &Some("text/html".to_string()), &Some("a".to_string())), Err(UploadError::TypeNotAllowed));
    assert_eq!(check_editor_upload(&c, &None, &Some("a".to_string())), Err(UploadError::TypeNotAllowed));
    assert_eq!(check_editor_upload(&c, &png, &Some("a/b.png".to_string())), Err(UploadError::ImportError));
    assert_eq!(check_editor_upload(&c, &png, &None), Err(UploadError::ImportError));
    assert_eq!(check_editor_upload(&c, &png, &Some("b.png".to_string())), Ok(()));
}

#[test]
fn upload_error_statuses() {
    assert_eq!(UploadError::NoFileGiven.status(), 400);
    assert_eq!(UploadError::ImportError.status(), 400);
    assert_eq!(UploadError::TypeNotAllowed.status(), 415);
    assert_eq!(UploadError::FileTooLarge.status(), 413);
    assert_eq!(UploadError::from_status(413), UploadError::FileTooLarge);
    assert_eq!(UploadError::from_status(400), UploadError::ImportError);
    assert_eq!(UploadError::TypeNotAllowed.tag(), "typeNotAllowed");
}

#[test]
fn upload_answers_and_errors() {
    let ok = UploadSuccess::new("/uploads/x/a.png".to_string());
    assert_eq!(ok.data.file_path, "/uploads/x/a.png");
    let e = AppError::new("Not Found".to_string(), "line one\nline two".to_string());
    assert_eq!(e.title, "Not Found");
    assert_eq!(e.description_lines(), vec!["line one".to_string(), "line two".to_string()]);
}

#[test]
fn file_locations() {
    let f = File::new(1, "a.png".to_string());
    assert_eq!(f.url(), "/uploads/00000000-0000-0000-0000-000000000001/a.png");
    assert_eq!(f.path("uploads"), "uploads/00000000-0000-0000-0000-000000000001/a.png");
}

#[test]
fn context_accessors() {
    let ctx = Context::new(vec!["posts".to_string()], "uploads".to_string(), 7u8);
    assert_eq!(ctx.names_plural(), vec!["posts".to_string()]);
    assert_eq!(ctx.uploads_dir(), "uploads");
    assert_eq!(*ctx.ext(), 7);
}

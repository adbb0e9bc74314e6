//! The capability dispatcher: which routes an entity gets for the operations
//! it supports, and the steps of a mutating request, in which the lifecycle
//! hook always runs, and must succeed, before the store is called.
use crate::bindings::{cased, to_case, url_encode, url_encoded, TextCase};
use vstd::prelude::*;

verus! {

/// The operations an entity supports.
#[derive(Clone, Copy, Debug, PartialEq, Eq, Structural)]
pub struct Capabilities {
    pub get: bool,
    pub list: bool,
    pub create: bool,
    pub update: bool,
    pub delete: bool,
}

#[derive(Clone, Copy, Debug, PartialEq, Eq, Structural)]
pub enum Method {
    Get,
    Post,
    Delete,
}

/// The handler a route leads to.
#[derive(Clone, Copy, Debug, PartialEq, Eq, Structural)]
pub enum Handler {
    ApiList,
    ApiGet,
    ApiCreate,
    ApiUpdate,
    ApiDelete,
    UiList,
    UiGet,
    UiUpdate,
    UiAddForm,
    UiCreate,
    UiDelete,
}

#[derive(Clone, Debug)]
pub struct Route {
    pub method: Method,
    pub path: String,
    pub handler: Handler,
}

pub open spec fn routes_view(rs: Seq<Route>) -> Seq<(Method, Seq<char>, Handler)> {
    rs.map_values(|r: Route| (r.method, r.path@, r.handler))
}

pub open spec fn when(
    on: bool,
    method: Method,
    path: Seq<char>,
    handler: Handler,
) -> Seq<(Method, Seq<char>, Handler)> {
    if on {
        seq![(method, path, handler)]
    } else {
        Seq::empty()
    }
}

/// The name as it stands in paths: kebab case, percent-encoded.
pub open spec fn path_name(s: Seq<char>) -> Seq<char> {
    url_encoded(cased(s, TextCase::Kebab))
}

/// The routes of an entity named `n` (plural `pl`), one for each operation it
/// supports, API routes first.
pub open spec fn routes_spec(n: Seq<char>, pl: Seq<char>, caps: Capabilities) -> Seq<
    (Method, Seq<char>, Handler),
> {
    let one = path_name(n);
    let many = path_name(pl);
    let api = "/api/v1/"@;
    when(caps.list, Method::Get, api + many, Handler::ApiList) + when(
        caps.get,
        Method::Get,
        api + one + "/:id"@,
        Handler::ApiGet,
    ) + when(caps.create, Method::Post, api + many, Handler::ApiCreate) + when(
        caps.update,
        Method::Post,
        api + one + "/:id"@,
        Handler::ApiUpdate,
    ) + when(caps.delete, Method::Delete, api + one + "/:id"@, Handler::ApiDelete) + when(
        caps.list,
        Method::Get,
        "/"@ + many,
        Handler::UiList,
    ) + when(caps.get, Method::Get, "/"@ + one + "/:id"@, Handler::UiGet) + when(
        caps.update,
        Method::Post,
        "/"@ + one + "/:id"@,
        Handler::UiUpdate,
    ) + when(caps.create, Method::Get, "/"@ + many + "/add"@, Handler::UiAddForm) + when(
        caps.create,
        Method::Post,
        "/"@ + many + "/add"@,
        Handler::UiCreate,
    ) + when(caps.delete, Method::Post, "/"@ + one + "/:id/delete"@, Handler::UiDelete)
}

fn concat3(a: &str, b: &str, c: &str) -> (r: String)
    ensures
        r@ == a@ + b@ + c@,
{
    let mut r = a.to_owned();
    r.append(b);
    r.append(c);
    r
}

fn push_when(
    rs: &mut Vec<Route>,
    on: bool,
    method: Method,
    path: String,
    handler: Handler,
)
    ensures
        routes_view(final(rs)@) == routes_view(old(rs)@) + when(on, method, path@, handler),
{
    let ghost before = rs@;
    if on {
        rs.push(Route { method, path, handler });
        proof {
            assert(routes_view(rs@) =~= routes_view(before) + when(on, method, path@, handler));
        }
    } else {
        proof {
            assert(routes_view(rs@) =~= routes_view(before) + when(on, method, path@, handler));
        }
    }
}

/// The name as it stands in paths: kebab case, percent-encoded.
pub fn path_name_of(s: &str) -> (r: String)
    ensures
        r@ == path_name(s@),
{
    let k = to_case(s, TextCase::Kebab);
    url_encode(k.as_str())
}

/// The routes of an entity with the given names and operations.
pub fn entity_routes(name: &str, name_plural: &str, caps: Capabilities) -> (r: Vec<Route>)
    ensures
        routes_view(r@) == routes_spec(name@, name_plural@, caps),
{
    let one = path_name_of(name);
    let many = path_name_of(name_plural);
    let one_s = one.as_str();
    let many_s = many.as_str();
    let mut rs: Vec<Route> = Vec::new();
    proof {
        assert(routes_view(rs@) =~= Seq::<(Method, Seq<char>, Handler)>::empty());
    }
    push_when(&mut rs, caps.list, Method::Get, concat3("/api/v1/", many_s, ""), Handler::ApiList);
    push_when(&mut rs, caps.get, Method::Get, concat3("/api/v1/", one_s, "/:id"), Handler::ApiGet);
    push_when(
        &mut rs,
        caps.create,
        Method::Post,
        concat3("/api/v1/", many_s, ""),
        Handler::ApiCreate,
    );
    push_when(
        &mut rs,
        caps.update,
        Method::Post,
        concat3("/api/v1/", one_s, "/:id"),
        Handler::ApiUpdate,
    );
    push_when(
        &mut rs,
        caps.delete,
        Method::Delete,
        concat3("/api/v1/", one_s, "/:id"),
        Handler::ApiDelete,
    );
    push_when(&mut rs, caps.list, Method::Get, concat3("/", many_s, ""), Handler::UiList);
    push_when(&mut rs, caps.get, Method::Get, concat3("/", one_s, "/:id"), Handler::UiGet);
    push_when(&mut rs, caps.update, Method::Post, concat3("/", one_s, "/:id"), Handler::UiUpdate);
    push_when(&mut rs, caps.create, Method::Get, concat3("/", many_s, "/add"), Handler::UiAddForm);
    push_when(&mut rs, caps.create, Method::Post, concat3("/", many_s, "/add"), Handler::UiCreate);
    push_when(
        &mut rs,
        caps.delete,
        Method::Post,
        concat3("/", one_s, "/:id/delete"),
        Handler::UiDelete,
    );
    proof {
        reveal_strlit("");
        assert("/api/v1/"@ + path_name(name_plural@) + ""@ =~= "/api/v1/"@ + path_name(
            name_plural@,
        ));
        assert("/"@ + path_name(name_plural@) + ""@ =~= "/"@ + path_name(name_plural@));
        assert(routes_view(rs@) =~= routes_spec(name@, name_plural@, caps));
    }
    rs
}

/// Where a newly created entity is shown: `/{name in kebab case}/{id, percent-encoded}`.
pub fn created_location(name: &str, id: &str) -> (r: String)
    ensures
        r@ == "/"@ + cased(name@, TextCase::Kebab) + "/"@ + url_encoded(id@),
{
    let k = to_case(name, TextCase::Kebab);
    let e = url_encode(id);
    let mut r = concat3("/", k.as_str(), "/");
    r.append(e.as_str());
    r
}

/// Where the browser goes once an entity is deleted: `/{name in kebab case}`.
pub fn deleted_location(name: &str) -> (r: String)
    ensures
        r@ == "/"@ + cased(name@, TextCase::Kebab),
{
    let k = to_case(name, TextCase::Kebab);
    let mut r = "/".to_owned();
    r.append(k.as_str());
    r
}

/// The stage a mutating request (create, update, delete) has reached.
#[derive(Clone, Copy, Debug, PartialEq, Eq, Structural)]
pub enum FlowState {
    Start,
    /// extracting the request extension the hook needs
    Extracting,
    /// waiting for the lifecycle hook
    Hooking,
    /// waiting for the store
    Storing,
    Finished,
}

/// What happened outside since the last step.
#[derive(Clone, Copy, Debug, PartialEq, Eq, Structural)]
pub enum FlowEvent {
    Begin,
    Extracted,
    ExtractFailed,
    HookPassed,
    HookFailed,
    Stored,
    StoreFailed,
}

/// How a request ends.
#[derive(Clone, Copy, Debug, PartialEq, Eq, Structural)]
pub enum Outcome {
    Success,
    ExtensionError,
    HookError,
    StoreError,
}

/// What to do next.
#[derive(Clone, Copy, Debug, PartialEq, Eq, Structural)]
pub enum FlowAction {
    ExtractExtension,
    RunHook,
    CallStore,
    Respond(Outcome),
    /// The event does not belong to this stage: nothing happens.
    Nothing,
}

pub open spec fn step_spec(s: FlowState, e: FlowEvent) -> (FlowState, FlowAction) {
    match (s, e) {
        (FlowState::Start, FlowEvent::Begin) => (FlowState::Extracting, FlowAction::ExtractExtension),
        (FlowState::Extracting, FlowEvent::Extracted) => (FlowState::Hooking, FlowAction::RunHook),
        (FlowState::Extracting, FlowEvent::ExtractFailed) => (
            FlowState::Finished,
            FlowAction::Respond(Outcome::ExtensionError),
        ),
        (FlowState::Hooking, FlowEvent::HookPassed) => (FlowState::Storing, FlowAction::CallStore),
        (FlowState::Hooking, FlowEvent::HookFailed) => (
            FlowState::Finished,
            FlowAction::Respond(Outcome::HookError),
        ),
        (FlowState::Storing, FlowEvent::Stored) => (
            FlowState::Finished,
            FlowAction::Respond(Outcome::Success),
        ),
        (FlowState::Storing, FlowEvent::StoreFailed) => (
            FlowState::Finished,
            FlowAction::Respond(Outcome::StoreError),
        ),
        _ => (s, FlowAction::Nothing),
    }
}

/// One step of a mutating request: extract the extension, run the hook,
/// call the store only once the hook has passed, and respond.
pub fn step(s: FlowState, e: FlowEvent) -> (r: (FlowState, FlowAction))
    ensures
        r == step_spec(s, e),
{
    match (s, e) {
        (FlowState::Start, FlowEvent::Begin) => (FlowState::Extracting, FlowAction::ExtractExtension),
        (FlowState::Extracting, FlowEvent::Extracted) => (FlowState::Hooking, FlowAction::RunHook),
        (FlowState::Extracting, FlowEvent::ExtractFailed) => (
            FlowState::Finished,
            FlowAction::Respond(Outcome::ExtensionError),
        ),
        (FlowState::Hooking, FlowEvent::HookPassed) => (FlowState::Storing, FlowAction::CallStore),
        (FlowState::Hooking, FlowEvent::HookFailed) => (
            FlowState::Finished,
            FlowAction::Respond(Outcome::HookError),
        ),
        (FlowState::Storing, FlowEvent::Stored) => (
            FlowState::Finished,
            FlowAction::Respond(Outcome::Success),
        ),
        (FlowState::Storing, FlowEvent::StoreFailed) => (
            FlowState::Finished,
            FlowAction::Respond(Outcome::StoreError),
        ),
        _ => (s, FlowAction::Nothing),
    }
}

/// The actions a request takes on a sequence of events, from state `s`.
pub open spec fn run_actions(s: FlowState, events: Seq<FlowEvent>) -> Seq<FlowAction>
    decreases events.len(),
{
    if events.len() == 0 {
        Seq::empty()
    } else {
        let (next, a) = step_spec(s, events[0]);
        seq![a] + run_actions(next, events.drop_first())
    }
}

/// The state a request reaches on a sequence of events, from state `s`.
pub open spec fn run_state(s: FlowState, events: Seq<FlowEvent>) -> FlowState
    decreases events.len(),
{
    if events.len() == 0 {
        s
    } else {
        run_state(step_spec(s, events[0]).0, events.drop_first())
    }
}

proof fn lemma_finished_stays(events: Seq<FlowEvent>)
    ensures
        forall|i: int|
            0 <= i < events.len() ==> #[trigger] run_actions(FlowState::Finished, events)[i]
                == FlowAction::Nothing,
        run_actions(FlowState::Finished, events).len() == events.len(),
    decreases events.len(),
{
    if events.len() > 0 {
        lemma_finished_stays(events.drop_first());
        let rest = run_actions(FlowState::Finished, events.drop_first());
        assert forall|i: int| 0 <= i < events.len() implies #[trigger] run_actions(
            FlowState::Finished,
            events,
        )[i] == FlowAction::Nothing by {
            if i > 0 {
                assert(run_actions(FlowState::Finished, events)[i] == rest[i - 1]);
            }
        }
    }
}

proof fn lemma_run_split(s: FlowState, pre: Seq<FlowEvent>, post: Seq<FlowEvent>)
    ensures
        run_actions(s, pre + post) == run_actions(s, pre) + run_actions(run_state(s, pre), post),
    decreases pre.len(),
{
    if pre.len() == 0 {
        assert(pre + post =~= post);
        assert(run_actions(s, pre) =~= Seq::<FlowAction>::empty());
        assert(Seq::<FlowAction>::empty() + run_actions(s, post) =~= run_actions(s, post));
    } else {
        let next = step_spec(s, pre[0]).0;
        lemma_run_split(next, pre.drop_first(), post);
        assert((pre + post).drop_first() =~= pre.drop_first() + post);
        assert((pre + post)[0] == pre[0]);
        assert(run_actions(s, pre + post) =~= run_actions(s, pre) + run_actions(
            run_state(s, pre),
            post,
        ));
    }
}

/// The store is called only on the step where the hook has just passed:
/// never before the hook has run, and never on any other event.
pub proof fn lemma_store_only_after_hook(s: FlowState, e: FlowEvent)
    ensures
        step_spec(s, e).1 == FlowAction::CallStore ==> s == FlowState::Hooking && e
            == FlowEvent::HookPassed,
{
}

/// Once the hook has failed, the request ends with the hook's error and no
/// later event leads to a store call.
pub proof fn lemma_hook_failure_blocks_store(
    pre: Seq<FlowEvent>,
    post: Seq<FlowEvent>,
)
    requires
        run_state(FlowState::Start, pre) == FlowState::Hooking,
    ensures
        ({
            let acts = run_actions(FlowState::Start, pre + seq![FlowEvent::HookFailed] + post);
            &&& acts[pre.len() as int] == FlowAction::Respond(Outcome::HookError)
            &&& forall|i: int|
                pre.len() < i < acts.len() ==> #[trigger] acts[i] == FlowAction::Nothing
        }),
{
    let mid = pre + seq![FlowEvent::HookFailed];
    lemma_run_split(FlowState::Start, pre, seq![FlowEvent::HookFailed]);
    lemma_run_split(FlowState::Start, mid, post);
    lemma_run_state_split(FlowState::Start, pre, seq![FlowEvent::HookFailed]);
    let one = seq![FlowEvent::HookFailed];
    reveal_with_fuel(run_state, 2);
    reveal_with_fuel(run_actions, 2);
    assert(one.drop_first() =~= Seq::<FlowEvent>::empty());
    assert(run_state(FlowState::Hooking, one) == FlowState::Finished);
    assert(run_actions(FlowState::Hooking, one) =~= seq![FlowAction::Respond(Outcome::HookError)]);
    lemma_finished_stays(post);
    lemma_run_prefix_len(FlowState::Start, pre);
    let acts = run_actions(FlowState::Start, mid + post);
    assert(mid + post == pre + seq![FlowEvent::HookFailed] + post);
    assert forall|i: int| pre.len() < i < acts.len() implies #[trigger] acts[i]
        == FlowAction::Nothing by {
        assert(acts[i] == run_actions(FlowState::Finished, post)[i - pre.len() - 1]);
    }
}

proof fn lemma_run_state_split(s: FlowState, pre: Seq<FlowEvent>, post: Seq<FlowEvent>)
    ensures
        run_state(s, pre + post) == run_state(run_state(s, pre), post),
    decreases pre.len(),
{
    if pre.len() == 0 {
        assert(pre + post =~= post);
    } else {
        lemma_run_state_split(step_spec(s, pre[0]).0, pre.drop_first(), post);
        assert((pre + post).drop_first() =~= pre.drop_first() + post);
    }
}

proof fn lemma_run_prefix_len(s: FlowState, events: Seq<FlowEvent>)
    ensures
        run_actions(s, events).len() == events.len(),
    decreases events.len(),
{
    if events.len() > 0 {
        lemma_run_prefix_len(step_spec(s, events[0]).0, events.drop_first());
    }
}

} // verus!

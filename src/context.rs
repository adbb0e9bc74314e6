//! The context shared by all requests: the entities' plural names, the
//! upload directory, and the host's own state.
use vstd::prelude::*;

verus! {

/// Implemented by the context available in all endpoints.
pub trait ContextTrait {
    type Ext;

    fn names_plural(&self) -> Vec<String>;

    fn uploads_dir(&self) -> &str;

    fn ext(&self) -> &Self::Ext;
}

/// State the host adds to the context; any clonable value will do.
pub trait ContextExt<Ctx>: Clone {

}

impl<Ctx, T: Clone> ContextExt<Ctx> for T {

}

/// The context: built once at start-up, read by every request.
#[derive(Clone, Debug)]
pub struct Context<T> {
    pub names_plural: Vec<String>,
    pub uploads_dir: String,
    pub ext: T,
}

impl<T> Context<T> {
    pub fn new(names_plural: Vec<String>, uploads_dir: String, ext: T) -> (r: Context<T>)
        ensures
            r.names_plural@ == names_plural@,
            r.uploads_dir@ == uploads_dir@,
            r.ext == ext,
    {
        Context { names_plural, uploads_dir, ext }
    }
}

impl<T> ContextTrait for Context<T> {
    type Ext = T;

    fn names_plural(&self) -> Vec<String> {
        let mut r: Vec<String> = Vec::new();
        let mut i: usize = 0;
        while i < self.names_plural.len()
            invariant
                i <= self.names_plural@.len(),
            decreases self.names_plural.len() - i,
        {
            r.push(self.names_plural[i].clone());
            i = i + 1;
        }
        r
    }

    fn uploads_dir(&self) -> &str {
        self.uploads_dir.as_str()
    }

    fn ext(&self) -> &T {
        &self.ext
    }
}

/// The context of one rendered form.
#[derive(Clone, Debug)]
pub struct FormRenderContext {
    /// unique id of the HTML form element
    pub form_id: String,
}

} // verus!

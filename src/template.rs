use vstd::prelude::*;
use vstd::string::StringExecFns;

verus! {

/// Turns one piece of typed text into its rendered form.
pub trait TemplateRenderer<TypeId> {
    fn render_text(&self, string: &str) -> String {
        string.to_string()
    }

    fn render(&self, type_id: &TypeId, string: &str) -> String;
}

/// A piece of text, plain or tagged with a category for the renderer.
pub enum TemplateEntry<TypeId> {
    Text(String),
    Typed(TypeId, String),
}

impl<TypeId> TemplateEntry<TypeId> {
    /// A plain piece of text.
    pub fn text(s: &str) -> (r: Self)
        ensures
            r matches TemplateEntry::Text(t) && t@ == s@,
    {
        TemplateEntry::Text(String::from_str(s))
    }
}

/// The characters of `parts`, one part after the other.
pub open spec fn concat_all(parts: Seq<Seq<char>>) -> Seq<char>
    decreases parts.len(),
{
    if parts.len() == 0 {
        Seq::empty()
    } else {
        concat_all(parts.drop_last()) + parts.last()
    }
}

/// Joins rendered pieces in order.
pub fn join_parts(parts: &Vec<String>) -> (r: String)
    ensures
        r@ == concat_all(parts@.map_values(|p: String| p@)),
{
    let mut ret = String::new();
    let mut i: usize = 0;
    while i < parts.len()
        invariant
            i <= parts@.len(),
            ret@ == concat_all(parts@.subrange(0, i as int).map_values(|p: String| p@)),
        decreases parts@.len() - i,
    {
        proof {
            let s = parts@.subrange(0, i as int + 1).map_values(|p: String| p@);
            assert(s.drop_last() =~= parts@.subrange(0, i as int).map_values(|p: String| p@));
        }
        ret.append(parts[i].as_str());
        i = i + 1;
    }
    assert(parts@.subrange(0, parts@.len() as int) =~= parts@);
    ret
}

/// Renders a list of template entries with one renderer.
pub struct Template<TypeId, Renderer> where Renderer: TemplateRenderer<TypeId> {
    type_id: core::marker::PhantomData<TypeId>,
    renderer: Renderer,
}

impl<TypeId, Renderer> Template<TypeId, Renderer> where Renderer: TemplateRenderer<TypeId> {
    pub fn new(renderer: Renderer) -> (r: Self)
        ensures
            r.renderer() == renderer,
    {
        Template { type_id: core::marker::PhantomData, renderer }
    }

    pub closed spec fn renderer(self) -> Renderer {
        self.renderer
    }

    /// Each entry rendered by the renderer (plain text through `render_text`, typed text
    /// through `render`), joined in order.
    pub fn render(&self, entries: &Vec<TemplateEntry<TypeId>>) -> (r: String)
        ensures
            exists|parts: Seq<Seq<char>>| parts.len() == entries@.len() && r@ == #[trigger] concat_all(parts),
    {
        let mut parts: Vec<String> = Vec::new();
        let mut i: usize = 0;
        while i < entries.len()
            invariant
                i <= entries@.len(),
                parts@.len() == i,
            decreases entries@.len() - i,
        {
            let part = match &entries[i] {
                TemplateEntry::Text(text) => self.renderer.render_text(text.as_str()),
                TemplateEntry::Typed(type_id, text) => self.renderer.render(type_id, text.as_str()),
            };
            parts.push(part);
            i = i + 1;
        }
        let r = join_parts(&parts);
        assert(parts@.map_values(|p: String| p@).len() == entries@.len());
        r
    }
}

} // verus!

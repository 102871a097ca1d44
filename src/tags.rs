//! Tags and the registry of templates from which they are instantiated.

use vstd::prelude::*;

use crate::ser::tags::Id as SerTemplateId;
use crate::ser::tags::Tag as SerTag;
use crate::ser::tags::Template as SerTemplate;
use crate::ser::tags::Templates as SerTemplates;

verus! {

/// The name of the tag that marks a task as done.
pub const COMPLETE_TAG: &'static str = "complete";

/// A tag set on a task: a reference to a template by the template's
/// non-zero identifier.
#[derive(Clone, Copy, Debug, PartialEq, Eq, Structural)]
pub struct Tag {
    template: usize,
}

impl Tag {
    #[verifier::type_invariant]
    closed spec fn non_zero(self) -> bool {
        self.template != 0
    }

    /// The identifier of the template this tag was instantiated from.
    pub closed spec fn template_id(self) -> usize {
        self.template
    }

    /// Retrieve the identifier of the tag's template.
    pub fn id(&self) -> (r: usize)
        ensures
            r == self.template_id(),
            r != 0,
    {
        proof {
            use_type_invariant(self);
        }
        self.template
    }

    /// Tags are equal exactly when their templates are.
    pub proof fn lemma_template_id_injective(a: Tag, b: Tag)
        ensures
            (a.template_id() == b.template_id()) == (a == b),
    {
    }

    /// Convert this tag into its persisted shape.
    pub fn to_serde(&self) -> (r: SerTag)
        ensures
            r.id@ == self.template_id(),
    {
        SerTag { id: SerTemplateId::new(self.id()) }
    }
}

/// The tags that a list of persisted tags refers to.
pub open spec fn tags_of(tags: Seq<SerTag>) -> Set<Tag> {
    Set::new(|t: Tag| exists|k: int| 0 <= k < tags.len() && (#[trigger] tags[k]).id@ == t.template_id())
}

/// Whether `t` holds a template with identifier `id`.
pub open spec fn has_template_id(t: Seq<SerTemplate>, id: usize) -> bool {
    exists|i: int| 0 <= i < t.len() && (#[trigger] t[i]).id@ == id
}

/// Whether the templates of `t` have pairwise distinct identifiers.
pub open spec fn distinct_template_ids(t: Seq<SerTemplate>) -> bool {
    forall|i: int, j: int| 0 <= i < t.len() && 0 <= j < t.len() && i != j ==> (#[trigger] t[i]).id@
        != (#[trigger] t[j]).id@
}

/// The reason a list of templates was refused.
#[derive(Clone, Copy, Debug, PartialEq, Eq, Structural)]
pub enum TemplatesError {
    /// Two templates share the identifier.
    DuplicateId(usize),
}

/// The registry of tag templates, shared by all tasks.
#[derive(Debug)]
pub struct Templates {
    templates: Vec<SerTemplate>,
}

impl View for Templates {
    type V = Seq<SerTemplate>;

    closed spec fn view(&self) -> Seq<SerTemplate> {
        self.templates@
    }
}

impl Templates {
    /// A registry without templates.
    pub fn new() -> (r: Self)
        ensures
            r@ == Seq::<SerTemplate>::empty(),
    {
        Templates { templates: Vec::new() }
    }

    /// Create the registry from its persisted shape; template identifiers
    /// must be distinct.
    pub fn with_serde(templates: SerTemplates) -> (r: Result<Self, TemplatesError>)
        ensures
            r is Ok <==> distinct_template_ids(templates.0@),
            r matches Ok(t) ==> t@ == templates.0@,
            r matches Err(TemplatesError::DuplicateId(id)) ==> exists|i: int, j: int|
                0 <= i < j < templates.0@.len() && (#[trigger] templates.0@[i]).id@ == id
                    && (#[trigger] templates.0@[j]).id@ == id,
    {
        let n = templates.0.len();
        let mut i: usize = 0;
        while i < n
            invariant
                n == templates.0@.len(),
                i <= n,
                forall|a: int, b: int| 0 <= a < i && 0 <= b < n && a != b ==> (#[trigger] templates.0@[a]).id@
                    != (#[trigger] templates.0@[b]).id@,
            decreases n - i,
        {
            let mut j: usize = 0;
            while j < n
                invariant
                    n == templates.0@.len(),
                    i < n,
                    j <= n,
                    forall|a: int, b: int| 0 <= a < i && 0 <= b < n && a != b ==> (#[trigger] templates.0@[
                        a]).id@ != (#[trigger] templates.0@[b]).id@,
                    forall|b: int| 0 <= b < j && b != i ==> templates.0@[i as int].id@ != (#[trigger] templates.0@[b]).id@,
                decreases n - j,
            {
                if j != i && templates.0[i].id.get() == templates.0[j].id.get() {
                    let id = templates.0[i].id.get();
                    proof {
                        if i < j {
                            assert(templates.0@[i as int].id@ == id);
                            assert(templates.0@[j as int].id@ == id);
                        } else {
                            assert(templates.0@[j as int].id@ == id);
                            assert(templates.0@[i as int].id@ == id);
                        }
                    }
                    return Err(TemplatesError::DuplicateId(id));
                }
                j = j + 1;
            }
            i = i + 1;
        }
        Ok(Templates { templates: templates.0 })
    }

    /// Instantiate a tag from the template with identifier `id`, if there
    /// is one.
    pub fn instantiate(&self, id: SerTemplateId) -> (r: Option<Tag>)
        ensures
            r is Some <==> has_template_id(self@, id@),
            r matches Some(tag) ==> tag.template_id() == id@,
    {
        let wanted = id.get();
        let mut i: usize = 0;
        while i < self.templates.len()
            invariant
                wanted == id@,
                i <= self@.len(),
                forall|k: int| 0 <= k < i ==> (#[trigger] self@[k]).id@ != wanted,
            decreases self@.len() - i,
        {
            if self.templates[i].id.get() == wanted {
                return Some(Tag { template: wanted });
            }
            i = i + 1;
        }
        None
    }

    /// Instantiate a tag from the first template named `name`.
    pub fn instantiate_from_name(&self, name: &str) -> (r: Tag)
        requires
            exists|i: int| 0 <= i < self@.len() && (#[trigger] self@[i]).name@ == name@,
        ensures
            exists|i: int|
                0 <= i < self@.len() && (#[trigger] self@[i]).name@ == name@ && self@[i].id@
                    == r.template_id() && forall|k: int| 0 <= k < i ==> (#[trigger] self@[k]).name@
                    != name@,
    {
        let wanted = String::from_str(name);
        let mut i: usize = 0;
        while i < self.templates.len()
            invariant
                wanted@ == name@,
                i <= self@.len(),
                forall|k: int| 0 <= k < i ==> (#[trigger] self@[k]).name@ != name@,
            decreases self@.len() - i,
        {
            if self.templates[i].name == wanted {
                let id = self.templates[i].id.get();
                return Tag { template: id };
            }
            i = i + 1;
        }
        proof {
            let k = choose|k: int| 0 <= k < self@.len() && (#[trigger] self@[k]).name@ == name@;
            assert(self@[k].name@ != name@);
        }
        Tag { template: 1 }
    }
}

} // verus!

//! A style element in the head of the page.
//!
//! A style is given by its attributes and by its children, which have to be a
//! single piece of text. Styles with an `href` are put into the head once:
//! what decides is whether that `href` was seen before.

use vstd::prelude::*;
use crate::text::str_eq;

verus! {

/// What stands between the tags of the element.
#[derive(Clone, Debug, PartialEq, Eq)]
pub enum Children {
    /// Nothing.
    Empty,
    /// One piece of text.
    Text(String),
    /// Anything else: several nodes, a component, a loop, a fragment.
    Other,
    /// The children could not be rendered.
    Failed,
}

/// The properties of a style element.
#[derive(Clone, Debug, PartialEq, Eq)]
pub struct StyleProps {
    /// Styles are deduplicated by this attribute.
    pub href: Option<String>,
    pub media: Option<String>,
    pub nonce: Option<String>,
    pub title: Option<String>,
    /// The contents of the style tag: a single piece of text, if anything.
    pub children: Children,
}

/// The attribute `name` with the value `value`, if there is a value.
pub open spec fn attribute(name: Seq<char>, value: Option<String>) -> Seq<(Seq<char>, Seq<char>)> {
    match value {
        Some(text) => seq![(name, text@)],
        None => Seq::empty(),
    }
}

impl StyleProps {
    /// The attributes that are set, in the order `href`, `media`, `nonce`,
    /// `title`.
    pub open spec fn spec_attributes(&self) -> Seq<(Seq<char>, Seq<char>)> {
        attribute("href"@, self.href) + attribute("media"@, self.media) + attribute(
            "nonce"@,
            self.nonce,
        ) + attribute("title"@, self.title)
    }

    /// The attributes that are set, each with its name.
    pub fn attributes(&self) -> (attributes: Vec<(&'static str, String)>)
        ensures
            attributes@.len() == self.spec_attributes().len(),
            forall|i: int|
                0 <= i < attributes@.len() ==> (#[trigger] attributes@[i]).0@
                    == self.spec_attributes()[i].0 && attributes@[i].1@
                    == self.spec_attributes()[i].1,
    {
        let mut attributes: Vec<(&'static str, String)> = Vec::new();
        let ghost mut so_far: Seq<(Seq<char>, Seq<char>)> = Seq::empty();
        if let Some(href) = &self.href {
            attributes.push(("href", href.clone()));
        }
        proof {
            so_far = attribute("href"@, self.href);
        }
        assert(attributes@.len() == so_far.len());
        if let Some(media) = &self.media {
            attributes.push(("media", media.clone()));
        }
        proof {
            so_far = so_far + attribute("media"@, self.media);
        }
        assert(attributes@.len() == so_far.len());
        if let Some(nonce) = &self.nonce {
            attributes.push(("nonce", nonce.clone()));
        }
        proof {
            so_far = so_far + attribute("nonce"@, self.nonce);
        }
        assert(attributes@.len() == so_far.len());
        if let Some(title) = &self.title {
            attributes.push(("title", title.clone()));
        }
        proof {
            so_far = so_far + attribute("title"@, self.title);
        }
        assert(so_far == self.spec_attributes());
        attributes
    }

    /// The text of the style, where the children are a single piece of text.
    pub fn style_contents(&self) -> (contents: Option<String>)
        ensures
            match self.children {
                Children::Text(text) => contents matches Some(got) && got@ == text@,
                _ => contents is None,
            },
    {
        match &self.children {
            Children::Text(text) => Some(text.clone()),
            _ => None,
        }
    }
}

/// The `href`s of the styles that were put into the head.
pub struct StyleContext {
    seen: Vec<String>,
}

impl View for StyleContext {
    type V = Set<Seq<char>>;

    closed spec fn view(&self) -> Set<Seq<char>> {
        Set::new(|href: Seq<char>| exists|i: int| 0 <= i < self.seen@.len() && (#[trigger] self.seen@[i])@ == href)
    }
}

impl StyleContext {
    /// A context for a page without styles.
    pub fn new() -> (context: Self)
        ensures
            context@ == Set::<Seq<char>>::empty(),
    {
        let context = StyleContext { seen: Vec::new() };
        assert(context@ =~= Set::<Seq<char>>::empty());
        context
    }

    /// Whether a style with this `href` is to be put into the head: it is
    /// when the `href` is seen for the first time, and from then on it counts
    /// as seen.
    pub fn should_insert(&mut self, href: &str) -> (insert: bool)
        ensures
            insert == !old(self)@.contains(href@),
            final(self)@ == old(self)@.insert(href@),
    {
        let mut i: usize = 0;
        while i < self.seen.len()
            invariant
                i <= self.seen.len(),
                forall|j: int| 0 <= j < i ==> (#[trigger] self.seen@[j])@ != href@,
            decreases self.seen.len() - i,
        {
            if str_eq(self.seen[i].as_str(), href) {
                assert(self@.contains(href@));
                assert(self@ =~= self@.insert(href@));
                return false;
            }
            i += 1;
        }
        let ghost before = self@;
        assert(!before.contains(href@));
        self.seen.push(href.to_owned());
        assert(self@ =~= before.insert(href@)) by {
            assert forall|text: Seq<char>| self@.contains(text) <==> before.insert(href@).contains(
                text,
            ) by {
                if self@.contains(text) {
                    let k = choose|k: int|
                        0 <= k < self.seen@.len() && (#[trigger] self.seen@[k])@ == text;
                    if k < old(self).seen@.len() {
                        assert(old(self).seen@[k]@ == text);
                    }
                }
                if before.contains(text) {
                    let k = choose|k: int|
                        0 <= k < old(self).seen@.len() && (#[trigger] old(self).seen@[k])@
                            == text;
                    assert(self.seen@[k]@ == text);
                }
                if text == href@ {
                    assert(self.seen@[self.seen@.len() - 1]@ == text);
                }
            }
        }
        true
    }
}

/// The head element that a style asks for.
#[derive(Debug, PartialEq, Eq)]
pub struct HeadElement {
    /// The name of the tag.
    pub name: &'static str,
    pub attributes: Vec<(&'static str, String)>,
    pub contents: Option<String>,
}

/// Renders a style into the head of the page. Returns the element that is to
/// be created, or `None` where a style with the same `href` is there already.
/// A style without an `href` is always created.
#[allow(non_snake_case)]
pub fn Style(props: &StyleProps, context: &mut StyleContext) -> (element: Option<HeadElement>)
    ensures
        final(context)@ == match props.href {
            Some(href) => old(context)@.insert(href@),
            None => old(context)@,
        },
        element is Some <==> match props.href {
            Some(href) => !old(context)@.contains(href@),
            None => true,
        },
        element matches Some(made) ==> {
            &&& made.name@ == "style"@
            &&& made.attributes@.len() == props.spec_attributes().len()
            &&& forall|i: int|
                0 <= i < made.attributes@.len() ==> (#[trigger] made.attributes@[i]).0@
                    == props.spec_attributes()[i].0 && made.attributes@[i].1@
                    == props.spec_attributes()[i].1
            &&& match props.children {
                Children::Text(text) => made.contents matches Some(got) && got@ == text@,
                _ => made.contents is None,
            }
        },
{
    if let Some(href) = &props.href {
        if !context.should_insert(href.as_str()) {
            return None;
        }
    }
    Some(
        HeadElement {
            name: "style",
            attributes: props.attributes(),
            contents: props.style_contents(),
        },
    )
}

} // verus!

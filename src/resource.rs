use vstd::prelude::*;

pub use crate::topic::{Topic, RESOUCES_FILE, TOPICS_FILE};

verus! {

/// Where the picture of an image resource comes from.
#[derive(Debug, Clone, PartialEq)]
pub enum ImageSource {
    File { filename: String },
    Link { link: String },
}

/// A content item of the library: a file, a link or an image, each with a
/// name and a description.
#[derive(Clone, Debug, PartialEq)]
pub enum Resource {
    File { name: String, description: String, filename: String },
    Link { name: String, description: String, link: String },
    Image { name: String, description: String, alt_text: String, source: ImageSource },
}

/// The abstract value of an `ImageSource`.
pub enum SourceView {
    File { filename: Seq<char> },
    Link { link: Seq<char> },
}

/// The abstract value of a `Resource`.
pub enum ResourceView {
    File { name: Seq<char>, description: Seq<char>, filename: Seq<char> },
    Link { name: Seq<char>, description: Seq<char>, link: Seq<char> },
    Image { name: Seq<char>, description: Seq<char>, alt_text: Seq<char>, source: SourceView },
}

impl View for ImageSource {
    type V = SourceView;

    open spec fn view(&self) -> SourceView {
        match self {
            ImageSource::File { filename } => SourceView::File { filename: filename@ },
            ImageSource::Link { link } => SourceView::Link { link: link@ },
        }
    }
}

impl View for Resource {
    type V = ResourceView;

    open spec fn view(&self) -> ResourceView {
        match self {
            Resource::File { name, description, filename } => ResourceView::File {
                name: name@,
                description: description@,
                filename: filename@,
            },
            Resource::Link { name, description, link } => ResourceView::Link {
                name: name@,
                description: description@,
                link: link@,
            },
            Resource::Image { name, description, alt_text, source } => ResourceView::Image {
                name: name@,
                description: description@,
                alt_text: alt_text@,
                source: source@,
            },
        }
    }
}

/// The views of a sequence of resources.
pub open spec fn resource_views(v: Seq<Resource>) -> Seq<ResourceView> {
    v.map_values(|r: Resource| r@)
}

impl ImageSource {
    /// The source given by exactly one of a file name and a link.
    pub fn from_row(filename: Option<String>, link: Option<String>) -> (r: ImageSource)
        requires
            filename is Some != link is Some,
        ensures
            filename is Some ==> r == (ImageSource::File { filename: filename->0 }),
            link is Some ==> r == (ImageSource::Link { link: link->0 }),
    {
        match filename {
            Some(f) => ImageSource::File { filename: f },
            None => ImageSource::Link { link: link.unwrap() },
        }
    }

    /// An equal copy.
    pub fn duplicate(&self) -> (r: ImageSource)
        ensures
            r == *self,
    {
        match self {
            ImageSource::File { filename } => ImageSource::File { filename: filename.clone() },
            ImageSource::Link { link } => ImageSource::Link { link: link.clone() },
        }
    }
}

impl Resource {
    /// An equal copy.
    pub fn duplicate(&self) -> (r: Resource)
        ensures
            r == *self,
    {
        match self {
            Resource::File { name, description, filename } => Resource::File {
                name: name.clone(),
                description: description.clone(),
                filename: filename.clone(),
            },
            Resource::Link { name, description, link } => Resource::Link {
                name: name.clone(),
                description: description.clone(),
                link: link.clone(),
            },
            Resource::Image { name, description, alt_text, source } => Resource::Image {
                name: name.clone(),
                description: description.clone(),
                alt_text: alt_text.clone(),
                source: source.duplicate(),
            },
        }
    }
}

/// Copies a vector of resources.
pub fn copy_resources(v: &Vec<Resource>) -> (r: Vec<Resource>)
    ensures
        r@ == v@,
{
    let mut r: Vec<Resource> = Vec::new();
    let mut i: usize = 0;
    while i < v.len()
        invariant
            i <= v.len(),
            r@ == v@.subrange(0, i as int),
        decreases v.len() - i,
    {
        r.push(v[i].duplicate());
        i = i + 1;
    }
    assert(r@ =~= v@);
    r
}

} // verus!

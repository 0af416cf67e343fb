use vstd::prelude::*;
use crate::resource::{ImageSource, Resource, ResourceView, SourceView};
use crate::topic::{leaf_nonempty, TopicError, split_on, split_segments, split_str, seg_views, topic_views, Topic};

verus! {

/// One record of the input table. Optional columns that were left empty are
/// `None`.
pub struct ResourceRow {
    pub name: String,
    pub description: String,
    pub link: Option<String>,
    pub filename: Option<String>,
    pub alt_text: Option<String>,
    pub resource_type: String,
    pub topics: String,
}

/// The declared kind of a row.
#[derive(Clone, Copy, Debug, PartialEq, Eq, Structural)]
pub enum ResourceKind {
    File,
    Link,
    Image,
}

/// What is wrong with a rejected row.
#[derive(Clone, Copy, Debug, PartialEq, Eq, Structural)]
pub enum ValidationProblem {
    /// A file row needs a file name and no link or alt text.
    FileFields,
    /// A link row needs a link and no file name or alt text.
    LinkFields,
    /// An image row needs alt text and exactly one of a file name and a link.
    ImageFields,
    /// The declared kind is none of file, link and image.
    UnknownKind,
    /// A topic of the row has an empty leaf segment.
    EmptyTopic,
}

/// A rejected row: the problem and the name of the row.
#[derive(Clone, Debug, PartialEq)]
pub struct ValidationError {
    pub problem: ValidationProblem,
    pub row_name: String,
}

/// `c` is `w`, or the ASCII upper-case form of the lower-case letter `w`.
pub open spec fn char_folds_to(c: char, w: char) -> bool {
    c == w || (97 <= (w as u32) <= 122 && (c as u32) == (w as u32) - 32)
}

/// Lower-casing the ASCII letters of `s` gives `w`, for `w` in lower case.
pub open spec fn folds_to(s: Seq<char>, w: Seq<char>) -> bool {
    &&& s.len() == w.len()
    &&& forall|i: int| 0 <= i < s.len() ==> char_folds_to(#[trigger] s[i], w[i])
}

/// The kind that a `resource_type` value declares, compared without regard to
/// ASCII case.
pub open spec fn kind_spec(t: Seq<char>) -> Option<ResourceKind> {
    if folds_to(t, seq!['f', 'i', 'l', 'e']) {
        Some(ResourceKind::File)
    } else if folds_to(t, seq!['l', 'i', 'n', 'k']) {
        Some(ResourceKind::Link)
    } else if folds_to(t, seq!['i', 'm', 'a', 'g', 'e']) {
        Some(ResourceKind::Image)
    } else {
        None
    }
}

/// The row has the fields that its kind requires and none that it forbids.
pub open spec fn fields_fit(kind: ResourceKind, row: ResourceRow) -> bool {
    match kind {
        ResourceKind::File => row.filename is Some && row.link is None && row.alt_text is None,
        ResourceKind::Link => row.link is Some && row.filename is None && row.alt_text is None,
        ResourceKind::Image => row.alt_text is Some && (row.filename is Some != row.link is Some),
    }
}

/// The problem reported for a row of `kind` whose fields do not fit.
pub open spec fn problem_of(kind: ResourceKind) -> ValidationProblem {
    match kind {
        ResourceKind::File => ValidationProblem::FileFields,
        ResourceKind::Link => ValidationProblem::LinkFields,
        ResourceKind::Image => ValidationProblem::ImageFields,
    }
}

/// The resource that a fitting row of `kind` describes.
pub open spec fn resource_of(kind: ResourceKind, row: ResourceRow) -> ResourceView {
    match kind {
        ResourceKind::File => ResourceView::File {
            name: row.name@,
            description: row.description@,
            filename: row.filename->0@,
        },
        ResourceKind::Link => ResourceView::Link {
            name: row.name@,
            description: row.description@,
            link: row.link->0@,
        },
        ResourceKind::Image => ResourceView::Image {
            name: row.name@,
            description: row.description@,
            alt_text: row.alt_text->0@,
            source: if row.filename is Some {
                SourceView::File { filename: row.filename->0@ }
            } else {
                SourceView::Link { link: row.link->0@ }
            },
        },
    }
}

/// The topics of a row: each comma-separated token parsed on its own, in
/// order, duplicates kept.
pub open spec fn topics_of(topics: Seq<char>) -> Seq<Seq<Seq<char>>> {
    split_on(topics, ',').map_values(|p: Seq<char>| split_segments(p))
}

/// Every comma-separated token of `topics` names a topic: none has an empty
/// leaf segment.
pub open spec fn topics_ok(topics: Seq<char>) -> bool {
    forall|j: int|
        0 <= j < split_on(topics, ',').len() ==> leaf_nonempty(#[trigger] split_on(topics, ',')[j])
}

/// What a row turns into: its resource, or the problem that rejects it. The
/// kind is checked first, then the fields, then the topics.
pub open spec fn row_outcome(row: ResourceRow) -> Result<ResourceView, ValidationProblem> {
    match kind_spec(row.resource_type@) {
        None => Err(ValidationProblem::UnknownKind),
        Some(k) => if !fields_fit(k, row) {
            Err(problem_of(k))
        } else if !topics_ok(row.topics@) {
            Err(ValidationProblem::EmptyTopic)
        } else {
            Ok(resource_of(k, row))
        },
    }
}

/// The result of parsing `row` as a row of `kind`.
pub open spec fn parsed_as(
    kind: ResourceKind,
    row: ResourceRow,
    r: Result<(Vec<Topic>, Resource), ValidationError>,
) -> bool {
    &&& r is Ok <==> fields_fit(kind, row) && topics_ok(row.topics@)
    &&& r is Ok ==> topic_views(r->Ok_0.0@) == topics_of(row.topics@) && r->Ok_0.1@ == resource_of(kind, row)
    &&& r is Err ==> r->Err_0.row_name@ == row.name@ && r->Err_0.problem == if !fields_fit(kind, row) {
        problem_of(kind)
    } else {
        ValidationProblem::EmptyTopic
    }
}

/// Tests, ignoring ASCII case, whether `s` is the lower-case word `w`.
pub fn folds_to_word(s: &str, w: &str) -> (r: bool)
    ensures
        r == folds_to(s@, w@),
{
    let n = s.unicode_len();
    if n != w.unicode_len() {
        return false;
    }
    let mut i: usize = 0;
    while i < n
        invariant
            n == s@.len() == w@.len(),
            i <= n,
            forall|j: int| 0 <= j < i ==> char_folds_to(#[trigger] s@[j], w@[j]),
        decreases n - i,
    {
        let c = s.get_char(i);
        let d = w.get_char(i);
        let du = d as u32;
        if !(c == d || (97 <= du && du <= 122 && (c as u32) == du - 32)) {
            assert(!char_folds_to(s@[i as int], w@[i as int]));
            return false;
        }
        i = i + 1;
    }
    true
}

/// The declared kind of a `resource_type` value, if it names one.
pub fn kind_of(resource_type: &str) -> (r: Option<ResourceKind>)
    ensures
        r == kind_spec(resource_type@),
{
    proof {
        reveal_strlit("file");
        reveal_strlit("link");
        reveal_strlit("image");
        assert("file"@ =~= seq!['f', 'i', 'l', 'e']);
        assert("link"@ =~= seq!['l', 'i', 'n', 'k']);
        assert("image"@ =~= seq!['i', 'm', 'a', 'g', 'e']);
    }
    if folds_to_word(resource_type, "file") {
        Some(ResourceKind::File)
    } else if folds_to_word(resource_type, "link") {
        Some(ResourceKind::Link)
    } else if folds_to_word(resource_type, "image") {
        Some(ResourceKind::Image)
    } else {
        None
    }
}

fn copy_option(o: &Option<String>) -> (r: Option<String>)
    ensures
        r == *o,
{
    match o {
        Some(s) => Some(s.clone()),
        None => None,
    }
}

/// The topics that a row is tagged with, or `EmptyTopic` if one of its
/// tokens has an empty leaf segment.
pub fn parse_topics_from_row(row: &ResourceRow) -> (r: Result<Vec<Topic>, TopicError>)
    ensures
        r is Ok <==> topics_ok(row.topics@),
        r is Ok ==> topic_views(r->Ok_0@) == topics_of(row.topics@),
        r is Err ==> r->Err_0 == TopicError::EmptyTopic,
{
    let pieces = split_str(row.topics.as_str(), ',');
    let ghost pv = seg_views(pieces@);
    let mut r: Vec<Topic> = Vec::new();
    let mut i: usize = 0;
    while i < pieces.len()
        invariant
            i <= pieces.len(),
            pv == seg_views(pieces@),
            pv == split_on(row.topics@, ','),
            forall|j: int| 0 <= j < i ==> leaf_nonempty(#[trigger] pv[j]),
            topic_views(r@) == pv.subrange(0, i as int).map_values(|p: Seq<char>| split_segments(p)),
        decreases pieces.len() - i,
    {
        let t = match Topic::parse_from_input(pieces[i].clone()) {
            Ok(t) => t,
            Err(e) => {
                assert(!leaf_nonempty(pv[i as int]));
                return Err(e);
            },
        };
        let ghost before = r@;
        r.push(t);
        assert(topic_views(r@) =~= topic_views(before).push(t@));
        assert(pv.subrange(0, i + 1).map_values(|p: Seq<char>| split_segments(p)) =~= pv.subrange(
            0,
            i as int,
        ).map_values(|p: Seq<char>| split_segments(p)).push(split_segments(pv[i as int])));
        i = i + 1;
    }
    assert(pv.subrange(0, pieces.len() as int) =~= pv);
    Ok(r)
}

fn rejected(problem: ValidationProblem, row: &ResourceRow) -> (e: ValidationError)
    ensures
        e.problem == problem,
        e.row_name@ == row.name@,
{
    ValidationError { problem, row_name: row.name.clone() }
}

/// Parses a row declared as a file.
pub fn parse_file(row: &ResourceRow) -> (r: Result<(Vec<Topic>, Resource), ValidationError>)
    ensures
        parsed_as(ResourceKind::File, *row, r),
{
    if row.filename.is_some() && row.link.is_none() && row.alt_text.is_none() {
        let filename = copy_option(&row.filename).unwrap();
        let res = Resource::File {
            name: row.name.clone(),
            description: row.description.clone(),
            filename,
        };
        match parse_topics_from_row(row) {
            Ok(topics) => Ok((topics, res)),
            Err(_) => Err(rejected(ValidationProblem::EmptyTopic, row)),
        }
    } else {
        Err(rejected(ValidationProblem::FileFields, row))
    }
}

/// Parses a row declared as a link.
pub fn parse_link(row: &ResourceRow) -> (r: Result<(Vec<Topic>, Resource), ValidationError>)
    ensures
        parsed_as(ResourceKind::Link, *row, r),
{
    if row.link.is_some() && row.filename.is_none() && row.alt_text.is_none() {
        let link = copy_option(&row.link).unwrap();
        let res = Resource::Link { name: row.name.clone(), description: row.description.clone(), link };
        match parse_topics_from_row(row) {
            Ok(topics) => Ok((topics, res)),
            Err(_) => Err(rejected(ValidationProblem::EmptyTopic, row)),
        }
    } else {
        Err(rejected(ValidationProblem::LinkFields, row))
    }
}

/// Parses a row declared as an image.
pub fn parse_image(row: &ResourceRow) -> (r: Result<(Vec<Topic>, Resource), ValidationError>)
    ensures
        parsed_as(ResourceKind::Image, *row, r),
{
    if row.alt_text.is_some() && (row.filename.is_some() != row.link.is_some()) {
        let alt_text = copy_option(&row.alt_text).unwrap();
        let source = ImageSource::from_row(copy_option(&row.filename), copy_option(&row.link));
        let res = Resource::Image {
            name: row.name.clone(),
            description: row.description.clone(),
            alt_text,
            source,
        };
        match parse_topics_from_row(row) {
            Ok(topics) => Ok((topics, res)),
            Err(_) => Err(rejected(ValidationProblem::EmptyTopic, row)),
        }
    } else {
        Err(rejected(ValidationProblem::ImageFields, row))
    }
}

/// Parses one row by its declared kind: the row's topics and its resource,
/// or the problem that rejects it.
pub fn parse_row(row: &ResourceRow) -> (r: Result<(Vec<Topic>, Resource), ValidationError>)
    ensures
        r is Ok <==> row_outcome(*row) is Ok,
        r is Ok ==> topic_views(r->Ok_0.0@) == topics_of(row.topics@) && r->Ok_0.1@
            == row_outcome(*row)->Ok_0,
        r is Err ==> r->Err_0.problem == row_outcome(*row)->Err_0 && r->Err_0.row_name@
            == row.name@,
{
    match kind_of(row.resource_type.as_str()) {
        Some(ResourceKind::File) => parse_file(row),
        Some(ResourceKind::Link) => parse_link(row),
        Some(ResourceKind::Image) => parse_image(row),
        None => Err(rejected(ValidationProblem::UnknownKind, row)),
    }
}

} // verus!

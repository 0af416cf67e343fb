use vstd::prelude::*;

verus! {

/// The character that separates the segments of a topic path.
pub open spec fn separator() -> char {
    '/'
}

/// The views of a sequence of strings.
pub open spec fn seg_views(v: Seq<String>) -> Seq<Seq<char>> {
    v.map_values(|s: String| s@)
}

/// The pieces of `s` between occurrences of `sep`, in order; an input without
/// `sep` is a single piece, so the result is never empty.
pub open spec fn split_on(s: Seq<char>, sep: char) -> Seq<Seq<char>>
    decreases s.len(),
{
    if s.len() == 0 {
        seq![Seq::<char>::empty()]
    } else {
        let prev = split_on(s.drop_last(), sep);
        if s.last() == sep {
            prev.push(Seq::<char>::empty())
        } else {
            prev.update(prev.len() - 1, prev.last().push(s.last()))
        }
    }
}

/// The canonical path of a segment sequence: it starts and ends with the
/// separator, and the separator stands between segments (`/Math/Algebra/`).
/// The empty sequence, the root, has the path `/`.
pub open spec fn path_of(segs: Seq<Seq<char>>) -> Seq<char>
    decreases segs.len(),
{
    if segs.len() == 0 {
        seq![separator()]
    } else {
        path_of(segs.drop_last()) + segs.last() + seq![separator()]
    }
}

/// The segments of a raw topic string.
pub open spec fn split_segments(s: Seq<char>) -> Seq<Seq<char>> {
    split_on(s, separator())
}

/// Name of the file that lists the resources of one topic.
pub const RESOUCES_FILE: &'static str = "resources.json";

/// Name of the file that lists the child topics of one directory.
pub const TOPICS_FILE: &'static str = "topics.json";

/// Why a raw string names no topic.
#[derive(Clone, Copy, Debug, PartialEq, Eq, Structural)]
pub enum TopicError {
    /// The leaf segment would be empty.
    EmptyTopic,
}

/// The last segment of the raw topic string `s` is not empty.
pub open spec fn leaf_nonempty(s: Seq<char>) -> bool {
    split_segments(s).last().len() > 0
}

/// A location in the topic taxonomy: the ancestor segments, in order, and the
/// leaf segment. Its view is the whole segment sequence, ancestors then leaf.
#[derive(Debug, Clone, PartialEq, Eq, Hash)]
pub struct Topic {
    path: Vec<String>,
    topic_name: String,
}

impl View for Topic {
    type V = Seq<Seq<char>>;

    closed spec fn view(&self) -> Seq<Seq<char>> {
        seg_views(self.path@).push(self.topic_name@)
    }
}

/// The views of a sequence of topics.
pub open spec fn topic_views(v: Seq<Topic>) -> Seq<Seq<Seq<char>>> {
    v.map_values(|t: Topic| t@)
}

/// Copies a vector of strings.
pub fn copy_strings(v: &Vec<String>) -> (r: Vec<String>)
    ensures
        r@ == v@,
{
    let mut r: Vec<String> = Vec::new();
    let mut i: usize = 0;
    while i < v.len()
        invariant
            i <= v.len(),
            r@ == v@.subrange(0, i as int),
        decreases v.len() - i,
    {
        r.push(v[i].clone());
        i = i + 1;
    }
    assert(r@ =~= v@);
    r
}

/// Appends the path segments of `segs` to `s`, each followed by the separator.
pub(crate) fn append_segments(s: &mut String, segs: &Vec<String>)
    ensures
        final(s)@ == old(s)@ + path_of(seg_views(segs@)).drop_first(),
{
    proof {
        reveal_strlit("/");
    }
    let mut i: usize = 0;
    while i < segs.len()
        invariant
            i <= segs.len(),
            s@ == old(s)@ + path_of(seg_views(segs@.subrange(0, i as int))).drop_first(),
        decreases segs.len() - i,
    {
        let ghost before = s@;
        s.append(segs[i].as_str());
        s.append("/");
        proof {
            reveal_strlit("/");
            assert(s@ == before + segs@[i as int]@ + seq!['/']);
            let pre = seg_views(segs@.subrange(0, i as int));
            let post = seg_views(segs@.subrange(0, i + 1));
            assert(post.drop_last() =~= pre);
            assert(post.last() == segs@[i as int]@);
            assert(path_of(post) == path_of(pre) + segs@[i as int]@ + seq!['/']);
            lemma_path_starts(pre);
            assert(path_of(post).drop_first() =~= path_of(pre).drop_first() + segs@[i as int]@ + seq!['/']);
            assert(s@ =~= old(s)@ + path_of(post).drop_first());
        }
        i = i + 1;
    }
    assert(segs@.subrange(0, segs@.len() as int) =~= segs@);
}

pub proof fn lemma_path_starts(segs: Seq<Seq<char>>)
    ensures
        path_of(segs).len() >= 1,
        path_of(segs)[0] == separator(),
    decreases segs.len(),
{
    if segs.len() > 0 {
        lemma_path_starts(segs.drop_last());
    }
}

/// Splits `s` at each occurrence of `sep`.
pub fn split_str(s: &str, sep: char) -> (r: Vec<String>)
    ensures
        seg_views(r@) == split_on(s@, sep),
        r@.len() >= 1,
{
    let n = s.unicode_len();
    let mut pieces: Vec<String> = Vec::new();
    let mut start: usize = 0;
    let mut i: usize = 0;
    proof {
        assert(s@.subrange(0, 0) =~= Seq::<char>::empty());
        assert(seg_views(pieces@) =~= Seq::<Seq<char>>::empty());
        assert(split_on(Seq::<char>::empty(), sep) =~= seq![Seq::<char>::empty()]);
    }
    while i < n
        invariant
            n == s@.len(),
            start <= i <= n,
            split_on(s@.subrange(0, i as int), sep) == seg_views(pieces@).push(
                s@.subrange(start as int, i as int),
            ),
        decreases n - i,
    {
        let c = s.get_char(i);
        proof {
            assert(s@.subrange(0, i + 1).drop_last() =~= s@.subrange(0, i as int));
            assert(s@.subrange(0, i + 1).last() == c);
        }
        if c == sep {
            let piece = String::from_str(s.substring_char(start, i));
            let ghost old_pieces = pieces@;
            pieces.push(piece);
            proof {
                assert(seg_views(pieces@) =~= seg_views(old_pieces).push(piece@));
                assert(s@.subrange(i + 1, i + 1) =~= Seq::<char>::empty());
                assert(split_on(s@.subrange(0, i + 1), sep) =~= seg_views(pieces@).push(
                    s@.subrange(i + 1, i + 1),
                ));
            }
            start = i + 1;
        } else {
            proof {
                assert(s@.subrange(start as int, i + 1) =~= s@.subrange(start as int, i as int).push(c));
                assert(split_on(s@.subrange(0, i + 1), sep) =~= seg_views(pieces@).push(
                    s@.subrange(start as int, i + 1),
                ));
            }
        }
        i = i + 1;
    }
    let last = String::from_str(s.substring_char(start, n));
    assert(s@.subrange(0, n as int) =~= s@);
    let ghost before = pieces@;
    pieces.push(last);
    assert(seg_views(pieces@) =~= seg_views(before).push(last@));
    pieces
}


/// Compares two vectors of strings segment by segment.
pub fn same_strings(a: &Vec<String>, b: &Vec<String>) -> (r: bool)
    ensures
        r == (seg_views(a@) == seg_views(b@)),
{
    if a.len() != b.len() {
        assert(seg_views(a@).len() != seg_views(b@).len());
        return false;
    }
    let mut i: usize = 0;
    while i < a.len()
        invariant
            a.len() == b.len(),
            i <= a.len(),
            forall|j: int| 0 <= j < i ==> a@[j]@ == b@[j]@,
        decreases a.len() - i,
    {
        if a[i] != b[i] {
            assert(seg_views(a@)[i as int] != seg_views(b@)[i as int]);
            return false;
        }
        i = i + 1;
    }
    assert(seg_views(a@) =~= seg_views(b@));
    true
}

impl Topic {
    /// Structural equality: the same segments in the same order.
    pub fn same(&self, other: &Topic) -> (r: bool)
        ensures
            r == (self@ == other@),
    {
        let r = same_strings(&self.path, &other.path) && self.topic_name == other.topic_name;
        proof {
            if self@ == other@ {
                assert(self@.drop_last() =~= seg_views(self.path@));
                assert(other@.drop_last() =~= seg_views(other.path@));
                assert(self@.last() == self.topic_name@);
                assert(other@.last() == other.topic_name@);
            }
            if r {
                assert(self@ =~= other@);
            }
        }
        r
    }

    /// A top-level topic with no ancestors.
    pub fn new(base_topic: String) -> (r: Topic)
        requires
            base_topic@.len() > 0,
        ensures
            r@ == seq![base_topic@],
            r.wf(),
    {
        let r = Topic { path: Vec::new(), topic_name: base_topic };
        assert(r@ =~= seq![base_topic@]);
        r
    }

    /// Well formed: the leaf segment is not empty.
    pub open spec fn wf(&self) -> bool {
        self@.last().len() > 0
    }

    /// Splits `topic_str` on the separator: the last piece is the leaf, the
    /// pieces before it are the ancestors. Fails with `EmptyTopic` when the
    /// last piece is empty (an empty string, or one that ends with the
    /// separator).
    pub fn parse_from_input(topic_str: String) -> (r: Result<Topic, TopicError>)
        ensures
            r is Ok <==> leaf_nonempty(topic_str@),
            r is Ok ==> r->Ok_0@ == split_segments(topic_str@) && r->Ok_0.wf(),
            r is Err ==> r->Err_0 == TopicError::EmptyTopic,
    {
        let mut pieces = split_str(topic_str.as_str(), '/');
        let ghost all = pieces@;
        let leaf = pieces.pop().unwrap();
        assert(all == pieces@.push(leaf));
        assert(seg_views(all).last() == leaf@);
        if leaf.as_str().unicode_len() == 0 {
            return Err(TopicError::EmptyTopic);
        }
        let r = Topic { path: pieces, topic_name: leaf };
        assert(r@ =~= seg_views(all));
        Ok(r)
    }

    /// An equal copy.
    pub fn duplicate(&self) -> (r: Topic)
        ensures
            r@ == self@,
    {
        Topic { path: copy_strings(&self.path), topic_name: self.topic_name.clone() }
    }

    /// The leaf segment.
    pub fn get_name(&self) -> (r: String)
        ensures
            r@ == self@.last(),
    {
        self.topic_name.clone()
    }

    /// The topic one level below this one, with leaf `sub_topic`.
    pub fn sub_topic(&self, sub_topic: &String) -> (r: Topic)
        requires
            sub_topic@.len() > 0,
        ensures
            r@ == self@.push(sub_topic@),
            r.wf(),
    {
        let mut path = copy_strings(&self.path);
        path.push(self.topic_name.clone());
        let r = Topic { path, topic_name: sub_topic.clone() };
        assert(r@ =~= self@.push(sub_topic@));
        r
    }

    /// All segments, ancestors first and the leaf last.
    pub fn segments(&self) -> (r: Vec<String>)
        ensures
            seg_views(r@) == self@,
            r@.len() >= 1,
    {
        let mut r = copy_strings(&self.path);
        r.push(self.topic_name.clone());
        assert(seg_views(r@) =~= self@);
        r
    }

    /// The canonical path, e.g. `/Math/Algebra/`.
    pub fn full_topic_path(&self) -> (r: String)
        ensures
            r@ == path_of(self@),
    {
        let segs = self.segments();
        let mut r = String::from_str("/");
        proof {
            reveal_strlit("/");
        }
        append_segments(&mut r, &segs);
        proof {
            lemma_path_starts(self@);
            assert(r@ =~= path_of(self@));
        }
        r
    }

    /// The path of this topic's resources index.
    pub fn topic_resource_path(&self) -> (r: String)
        ensures
            r@ == path_of(self@) + RESOUCES_FILE@,
    {
        self.full_topic_path().concat(RESOUCES_FILE)
    }

    /// The path of this topic's child-topics index.
    pub fn sub_topics_file(&self) -> (r: String)
        ensures
            r@ == path_of(self@) + TOPICS_FILE@,
    {
        self.full_topic_path().concat(TOPICS_FILE)
    }
}

} // verus!

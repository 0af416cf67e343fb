use ntc_resource_library::generate::{generate, parse_rows, RowError};
use ntc_resource_library::index::TopicIndex;
use ntc_resource_library::layout::{plan_layout, write_order, DirectoryPlan};
use ntc_resource_library::resource::{ImageSource, Resource};
use ntc_resource_library::row::{
    kind_of, parse_row, ResourceKind, ResourceRow, ValidationProblem,
};
use ntc_resource_library::topic::Topic;

fn row(
    name: &str,
    kind: &str,
    filename: Option<&str>,
    link: Option<&str>,
    alt_text: Option<&str>,
    topics: &str,
) -> ResourceRow {
    ResourceRow {
        name: name.to_string(),
        description: format!("{name} description"),
        link: link.map(|s| s.to_string()),
        filename: filename.map(|s| s.to_string()),
        alt_text: alt_text.map(|s| s.to_string()),
        resource_type: kind.to_string(),
        topics: topics.to_string(),
    }
}

fn find<'a>(plan: &'a [DirectoryPlan], segs: &[&str]) -> &'a DirectoryPlan {
    let want: Vec<String> = segs.iter().map(|s| s.to_string()).collect();
    let found: Vec<&DirectoryPlan> = plan.iter().filter(|d| d.segments == want).collect();
    assert_eq!(found.len(), 1, "directory {segs:?} should appear once");
    found[0]
}

#[test]
fn syllabus_example() {
    let rows = vec![ResourceRow {
        name: "Syllabus".to_string(),
        description: "Course outline".to_string(),
        link: None,
        filename: Some("syllabus.pdf".to_string()),
        alt_text: None,
        resource_type: "file".to_string(),
        topics: "Math/Algebra".to_string(),
    }];
    let plan = generate(&rows).unwrap();
    assert_eq!(plan.len(), 3);
    let leaf = find(&plan, &["Math", "Algebra"]);
    assert_eq!(
        leaf.resources,
        Some(vec![Resource::File {
            name: "Syllabus".to_string(),
            description: "Course outline".to_string(),
            filename: "syllabus.pdf".to_string(),
        }])
    );
    assert_eq!(leaf.resources_path(), "/Math/Algebra/resources.json");
    assert_eq!(leaf.topics_json(), "[]");
    let math = find(&plan, &["Math"]);
    assert_eq!(math.resources, None);
    assert_eq!(math.topics_json(), "[\"Algebra\"]");
    assert_eq!(math.topics_path(), "/Math/topics.json");
    let root = find(&plan, &[]);
    assert_eq!(root.topics_json(), "[\"Math\"]");
    assert_eq!(root.directory_path(), "/");
}

#[test]
fn resource_in_every_tagged_topic() {
    let rows = vec![row("Notes", "link", None, Some("https://example.org"), None, "Math/Algebra,Science")];
    let plan = generate(&rows).unwrap();
    let expected = Some(vec![Resource::Link {
        name: "Notes".to_string(),
        description: "Notes description".to_string(),
        link: "https://example.org".to_string(),
    }]);
    assert_eq!(find(&plan, &["Math", "Algebra"]).resources, expected);
    assert_eq!(find(&plan, &["Science"]).resources, expected);
    let root = find(&plan, &[]);
    assert_eq!(root.children, vec!["Math".to_string(), "Science".to_string()]);
}

#[test]
fn resources_keep_row_order_and_repeats() {
    let rows = vec![
        row("A", "file", Some("a.pdf"), None, None, "T,T"),
        row("B", "file", Some("b.pdf"), None, None, "T/U"),
        row("C", "file", Some("c.pdf"), None, None, "T"),
    ];
    let plan = generate(&rows).unwrap();
    let names: Vec<String> = find(&plan, &["T"])
        .resources
        .as_ref()
        .unwrap()
        .iter()
        .map(|r| match r {
            Resource::File { name, .. } => name.clone(),
            _ => panic!("not a file"),
        })
        .collect();
    assert_eq!(names, vec!["A", "A", "C"]);
    assert_eq!(find(&plan, &["T"]).children, vec!["U".to_string()]);
}

#[test]
fn children_match_subdirectories() {
    let rows = vec![
        row("A", "file", Some("a"), None, None, "x/y/z,x/w,q"),
        row("B", "file", Some("b"), None, None, "x/y,x/w/v"),
    ];
    let plan = generate(&rows).unwrap();
    for d in &plan {
        let mut subs: Vec<String> = plan
            .iter()
            .filter(|e| e.segments.len() == d.segments.len() + 1 && e.segments.starts_with(&d.segments))
            .map(|e| e.segments.last().unwrap().clone())
            .collect();
        let mut listed = d.children.clone();
        subs.sort();
        listed.sort();
        assert_eq!(subs, listed);
    }
    assert_eq!(plan.len(), 7);
}

#[test]
fn write_order_is_deepest_first() {
    let rows = vec![row("A", "file", Some("a"), None, None, "a/b/c,d,a/e")];
    let plan = generate(&rows).unwrap();
    let order = write_order(&plan);
    assert_eq!(order.len(), plan.len());
    let mut seen = order.clone();
    seen.sort();
    assert_eq!(seen, (0..plan.len()).collect::<Vec<usize>>());
    for w in order.windows(2) {
        assert!(plan[w[0]].segments.len() >= plan[w[1]].segments.len());
    }
    assert_eq!(plan[order[0]].segments, vec!["a", "b", "c"]);
    assert!(plan[*order.last().unwrap()].segments.is_empty());
}

#[test]
fn file_with_link_is_rejected() {
    let bad = row("Bad", "file", Some("x.pdf"), Some("https://x"), None, "Math");
    let err = parse_row(&bad).unwrap_err();
    assert_eq!(err.problem, ValidationProblem::FileFields);
    assert_eq!(err.row_name, "Bad");
    let rows = vec![row("Good", "file", Some("g.pdf"), None, None, "Math"), bad];
    let r = generate(&rows);
    assert!(matches!(r, Err(RowError { row: 1, .. })));
}

#[test]
fn row_rules_per_kind() {
    assert_eq!(
        parse_row(&row("L", "link", None, Some("u"), Some("alt"), "t")).unwrap_err().problem,
        ValidationProblem::LinkFields
    );
    assert_eq!(
        parse_row(&row("L", "link", Some("f"), None, None, "t")).unwrap_err().problem,
        ValidationProblem::LinkFields
    );
    assert_eq!(
        parse_row(&row("I", "image", Some("f"), Some("u"), Some("alt"), "t")).unwrap_err().problem,
        ValidationProblem::ImageFields
    );
    assert_eq!(
        parse_row(&row("I", "image", Some("f"), None, None, "t")).unwrap_err().problem,
        ValidationProblem::ImageFields
    );
    assert_eq!(
        parse_row(&row("F", "file", None, None, None, "t")).unwrap_err().problem,
        ValidationProblem::FileFields
    );
    let e = parse_row(&row("V", "video", Some("f"), None, None, "t")).unwrap_err();
    assert_eq!(e.problem, ValidationProblem::UnknownKind);
    assert_eq!(e.row_name, "V");
}

#[test]
fn kinds_ignore_ascii_case() {
    assert_eq!(kind_of("FILE"), Some(ResourceKind::File));
    assert_eq!(kind_of("Link"), Some(ResourceKind::Link));
    assert_eq!(kind_of("iMaGe"), Some(ResourceKind::Image));
    assert_eq!(kind_of("files"), None);
    assert_eq!(kind_of(""), None);
}

#[test]
fn image_rows_pick_their_source() {
    let (topics, r) = parse_row(&row("I", "Image", None, Some("https://img"), Some("alt"), "a/b,c")).unwrap();
    assert_eq!(
        topics,
        vec![Topic::parse_from_input("a/b".to_string()).unwrap(), Topic::parse_from_input("c".to_string()).unwrap()]
    );
    assert_eq!(
        r,
        Resource::Image {
            name: "I".to_string(),
            description: "I description".to_string(),
            alt_text: "alt".to_string(),
            source: ImageSource::Link { link: "https://img".to_string() },
        }
    );
    let (_, r) = parse_row(&row("J", "image", Some("p.png"), None, Some("alt"), "c")).unwrap();
    assert!(matches!(r, Resource::Image { source: ImageSource::File { .. }, .. }));
    assert_eq!(
        ImageSource::from_row(Some("p.png".to_string()), None),
        ImageSource::File { filename: "p.png".to_string() }
    );
    assert_eq!(r.duplicate(), r);
}

#[test]
fn index_groups_by_topic() {
    let rows = vec![
        row("A", "file", Some("a"), None, None, "x,y"),
        row("B", "file", Some("b"), None, None, "y"),
    ];
    let parsed = parse_rows(&rows).unwrap();
    let index = TopicIndex::build(&parsed);
    let entries = index.entries();
    assert_eq!(entries.len(), 2);
    assert_eq!(entries[0].0, Topic::new("x".to_string()));
    assert_eq!(entries[0].1.len(), 1);
    assert_eq!(entries[1].0, Topic::new("y".to_string()));
    assert_eq!(entries[1].1.len(), 2);
    let plan = plan_layout(&index);
    assert_eq!(plan.len(), 3);
}

#[test]
fn empty_table_gives_root_only() {
    let plan = generate(&Vec::new()).unwrap();
    assert_eq!(plan.len(), 1);
    assert!(plan[0].segments.is_empty());
    assert_eq!(plan[0].topics_json(), "[]");
}

#[test]
fn empty_leaf_rejects_row() {
    let e = parse_row(&row("E", "file", Some("e.pdf"), None, None, "Math/")).unwrap_err();
    assert_eq!(e.problem, ValidationProblem::EmptyTopic);
    let e = parse_row(&row("E", "file", Some("e.pdf"), None, None, "Math,")).unwrap_err();
    assert_eq!(e.problem, ValidationProblem::EmptyTopic);
    let e = parse_row(&row("E", "link", Some("e.pdf"), None, None, "Math/")).unwrap_err();
    assert_eq!(e.problem, ValidationProblem::LinkFields);
    let rows = vec![row("G", "file", Some("g"), None, None, "a"), row("E", "file", Some("e"), None, None, "")];
    assert!(matches!(generate(&rows), Err(RowError { row: 1, .. })));
}

#[test]
fn children_are_sorted() {
    let rows = vec![row("A", "file", Some("a"), None, None, "b,a/z,c,a/y,B")];
    let plan = generate(&rows).unwrap();
    assert_eq!(find(&plan, &[]).children, vec!["B", "a", "b", "c"]);
    assert_eq!(find(&plan, &[]).topics_json(), "[\"B\",\"a\",\"b\",\"c\"]");
    assert_eq!(find(&plan, &["a"]).children, vec!["y", "z"]);
}

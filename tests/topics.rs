use ntc_resource_library::topic::{split_str, Topic, TopicError, RESOUCES_FILE, TOPICS_FILE};

#[test]
fn parse_splits_ancestors_and_leaf() {
    let t = Topic::parse_from_input("Math/Algebra".to_string()).unwrap();
    assert_eq!(t.get_name(), "Algebra");
    assert_eq!(t.full_topic_path(), "/Math/Algebra/");
    assert_eq!(t.segments(), vec!["Math".to_string(), "Algebra".to_string()]);
}

#[test]
fn single_segment_topic_path() {
    let t = Topic::parse_from_input("Science".to_string()).unwrap();
    assert_eq!(t.full_topic_path(), "/Science/");
    assert_eq!(t, Topic::new("Science".to_string()));
}

#[test]
fn empty_leaf_is_rejected() {
    assert_eq!(Topic::parse_from_input(String::new()), Err(TopicError::EmptyTopic));
    assert_eq!(Topic::parse_from_input("Math/".to_string()), Err(TopicError::EmptyTopic));
    let t = Topic::parse_from_input("/Math".to_string()).unwrap();
    assert_eq!(t.full_topic_path(), "//Math/");
}

#[test]
fn sub_topic_extends_path() {
    let t = Topic::new("Math".to_string()).sub_topic(&"Algebra".to_string());
    assert_eq!(t, Topic::parse_from_input("Math/Algebra".to_string()).unwrap());
    assert!(t.same(&Topic::parse_from_input("Math/Algebra".to_string()).unwrap()));
    assert!(!t.same(&Topic::parse_from_input("Math/Geometry".to_string()).unwrap()));
    assert_eq!(t.full_topic_path(), "/Math/Algebra/");
}

#[test]
fn index_file_paths() {
    let t = Topic::parse_from_input("a/b/c".to_string()).unwrap();
    assert_eq!(t.topic_resource_path(), "/a/b/c/resources.json");
    assert_eq!(t.sub_topics_file(), "/a/b/c/topics.json");
    assert_eq!(RESOUCES_FILE, "resources.json");
    assert_eq!(TOPICS_FILE, "topics.json");
}

#[test]
fn split_keeps_empty_pieces() {
    assert_eq!(split_str("a//b", '/'), vec!["a".to_string(), String::new(), "b".to_string()]);
    assert_eq!(split_str("x,", ','), vec!["x".to_string(), String::new()]);
    assert_eq!(split_str("", ','), vec![String::new()]);
}

use ngram_compress::children::{
    accepted_among, children_under, get_children, get_direct_children, get_frontier, holds,
    order_of, ChildPolicy,
};

fn strings(v: &[&str]) -> Vec<String> {
    v.iter().map(|s| s.to_string()).collect()
}

#[test]
fn unigram_is_its_own_child() {
    assert_eq!(get_children("a", false, &vec![]), strings(&["a"]));
    assert_eq!(get_direct_children("a"), strings(&["a"]));
}

#[test]
fn full_children_of_trigram() {
    let c = get_children("a b c", false, &vec![]);
    assert_eq!(c, strings(&["a", "b", "a b", "b", "c", "b c"]));
    assert!(!c.contains(&"a b c".to_string()));
}

#[test]
fn full_children_below_root_include_self() {
    assert_eq!(get_children("a b", true, &vec![]), strings(&["a", "b", "a b"]));
}

#[test]
fn root_never_among_its_children() {
    for g in ["x y", "the quick brown fox", "a b c d e"] {
        let c = get_children(g, false, &vec![]);
        assert!(!c.contains(&g.to_string()));
    }
}

#[test]
fn direct_children_of_bigram() {
    assert_eq!(get_direct_children("x y"), strings(&["x", "y"]));
    assert_eq!(get_direct_children("a b c"), strings(&["a b", "b c"]));
}

#[test]
fn selective_keeps_accepted_part_whole() {
    let accepted = strings(&["a b"]);
    let c = children_under(ChildPolicy::HighlySelective, "a b c", &accepted);
    assert!(c.contains(&"a b".to_string()));
    assert!(!c.contains(&"a".to_string()));
    assert_eq!(c, strings(&["c", "b", "a b"]));
}

#[test]
fn selective_without_relevant_accepted_is_full() {
    let accepted = strings(&["q r"]);
    let c = children_under(ChildPolicy::HighlySelective, "a b c", &accepted);
    assert_eq!(c, get_children("a b c", false, &vec![]));
}

#[test]
fn frontier_descends_to_unigrams() {
    assert_eq!(get_frontier("a b c", &strings(&["z"])), strings(&["c", "b", "b", "a"]));
}

#[test]
fn policy_dispatch() {
    let none: Vec<String> = vec![];
    assert_eq!(
        children_under(ChildPolicy::FullRecursive, "a b", &none),
        strings(&["a", "b"])
    );
    assert_eq!(
        children_under(ChildPolicy::DirectChildren, "a b c", &none),
        strings(&["a b", "b c"])
    );
}

#[test]
fn accepted_filter_and_membership() {
    let children = strings(&["a", "b", "a b"]);
    let accepted = strings(&["x", "a b", "b"]);
    assert_eq!(accepted_among(&children, &accepted), strings(&["a b", "b"]));
    assert!(holds(&children, &"a b".to_string()));
    assert!(!holds(&children, &"b c".to_string()));
}

#[test]
fn multibyte_tokens_split_on_spaces() {
    assert_eq!(get_direct_children("café über"), strings(&["café", "über"]));
}

#[test]
fn order_counts_tokens() {
    assert_eq!(order_of("a"), 1);
    assert_eq!(order_of("a b c"), 3);
    assert_eq!(order_of("the quick brown fox jumps"), 5);
}

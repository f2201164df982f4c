use chumsky_branch::subpatterns::{is_not_empty, partition, retain_non_empty, Subpatterns};

fn chars(text: &str) -> Vec<char> {
    text.chars().collect()
}

fn rests(group: &Subpatterns) -> Option<Vec<String>> {
    match group {
        Subpatterns::Last => None,
        Subpatterns::Subpatterns(list) => Some(list.iter().map(|rest| rest.iter().collect()).collect()),
    }
}

#[test]
fn new_group_from_a_rest() {
    assert_eq!(rests(&Subpatterns::new(chars("%"))), Some(vec!["%".to_owned()]));
    assert_eq!(rests(&Subpatterns::new(chars(""))), None);
}

#[test]
fn push_adds_a_rest_in_order() {
    let mut group = Subpatterns::new(chars("%"));
    group.push(chars("{"));
    group.push(chars("%}"));
    assert_eq!(
        rests(&group),
        Some(vec!["%".to_owned(), "{".to_owned(), "%}".to_owned()])
    );
}

#[test]
fn push_of_an_empty_rest_completes_the_group() {
    let mut group = Subpatterns::new(chars("bc"));
    group.push(chars(""));
    assert_eq!(rests(&group), None);
}

#[test]
fn complete_group_stays_complete() {
    let mut group = Subpatterns::new(chars(""));
    group.push(chars("bc"));
    assert_eq!(rests(&group), None);
    group.push(chars(""));
    assert_eq!(rests(&group), None);
}

#[test]
fn is_not_empty_tells_rests_apart() {
    assert!(is_not_empty(&chars("a")));
    assert!(!is_not_empty(&chars("")));
}

#[test]
fn retain_non_empty_keeps_order() {
    let kept = retain_non_empty(&vec![chars("a"), chars(""), chars("bc"), chars("")]);
    assert_eq!(kept, vec![chars("a"), chars("bc")]);
    assert_eq!(retain_non_empty(&vec![]), Vec::<Vec<char>>::new());
}

#[test]
fn partition_groups_by_first_character_in_order_of_appearance() {
    let entries = partition(&vec![
        chars("{%"),
        chars("/*"),
        chars("{{"),
        chars("x"),
        chars("/"),
        chars("xy"),
    ]);
    let shown: Vec<(char, Option<Vec<String>>)> =
        entries.iter().map(|(first, group)| (*first, rests(group))).collect();
    assert_eq!(
        shown,
        vec![
            ('{', Some(vec!["%".to_owned(), "{".to_owned()])),
            ('/', None),
            ('x', None),
        ]
    );
}

#[test]
fn partition_of_nothing_is_empty() {
    assert!(partition(&vec![]).is_empty());
}

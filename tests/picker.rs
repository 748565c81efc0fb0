use bru_bot::announce::push_decimal;
use bru_bot::names::compare_names;
use bru_bot::picker::{announcement, Person, PersonSet, Pick, SelectionError};
use std::cmp::Ordering;

fn roster(names: &[&str]) -> PersonSet {
    let mut people = PersonSet::new();
    for n in names {
        people.add_person(n.to_string());
    }
    people
}

fn names_of(pick: &Pick) -> Vec<String> {
    match pick {
        Pick::Pair(a, b) => vec![a.name.clone(), b.name.clone()],
        Pick::Triple(a, b, c) => vec![a.name.clone(), b.name.clone(), c.name.clone()],
    }
}

fn round_names(picks: &[Pick]) -> Vec<Vec<String>> {
    picks.iter().map(names_of).collect()
}

fn s(x: &str) -> String {
    x.to_string()
}

#[test]
fn test_bad_add() {
    let mut people = PersonSet::new();
    people.add_person("alice".to_owned());
    people.add_person("bob".to_owned());
    people.add_person("chuck".to_owned());
    people.add_person("dave".to_owned());

    let (first_round, mut people) = people.make_selection().unwrap();

    println!("first round: {:#?}", first_round);

    people.add_person("edward".to_owned());

    let (second_round, mut people) = people.make_selection().unwrap();

    println!("second round: {:#?}", second_round);

    people.add_person("fred".to_owned());

    let (third_round, mut _people) = people.make_selection().unwrap();

    println!("third round: {:#?}", third_round);
}

#[test]
fn four_people_first_round() {
    let people = roster(&["dave", "chuck", "bob", "alice"]);
    let (picks, _) = people.make_selection().unwrap();
    assert_eq!(
        round_names(&picks),
        vec![vec![s("alice"), s("bob")], vec![s("chuck"), s("dave")]]
    );
}

#[test]
fn five_people_end_in_a_trio() {
    let people = roster(&["alice", "bob", "chuck", "dave", "edward"]);
    let (picks, people) = people.make_selection().unwrap();
    assert_eq!(
        round_names(&picks),
        vec![
            vec![s("alice"), s("bob")],
            vec![s("chuck"), s("dave"), s("edward")]
        ]
    );
    // bob opens next; alice is his only repeat, so chuck is his partner.
    let (picks, _) = people.make_selection().unwrap();
    assert_eq!(
        round_names(&picks),
        vec![
            vec![s("bob"), s("chuck")],
            vec![s("alice"), s("dave"), s("edward")]
        ]
    );
}

#[test]
fn three_people_form_one_trio() {
    let people = roster(&["c", "a", "b"]);
    let (picks, next) = people.make_selection().unwrap();
    assert_eq!(round_names(&picks), vec![vec![s("a"), s("b"), s("c")]]);
    assert_eq!(next.count_between(&s("a"), &s("c")), 1);
    assert_eq!(next.count_between(&s("b"), &s("c")), 1);
}

#[test]
fn two_people_form_one_pair() {
    let people = roster(&["y", "x"]);
    let (picks, _) = people.make_selection().unwrap();
    assert_eq!(round_names(&picks), vec![vec![s("x"), s("y")]]);
}

#[test]
fn six_people_form_three_pairs() {
    let people = roster(&["a", "b", "c", "d", "e", "f"]);
    let (picks, _) = people.make_selection().unwrap();
    assert_eq!(picks.len(), 3);
    assert!(picks.iter().all(|p| matches!(p, Pick::Pair(_, _))));
}

#[test]
fn one_person_is_not_enough() {
    let people = roster(&["alice"]);
    assert_eq!(
        people.make_selection().err(),
        Some(SelectionError::InsufficientParticipants)
    );
    let empty = PersonSet::new();
    assert_eq!(
        empty.make_selection().err(),
        Some(SelectionError::InsufficientParticipants)
    );
}

#[test]
fn partner_is_the_least_met() {
    let mut people = roster(&["a", "b", "c", "d"]);
    let a = || Person::new(s("a"));
    let picks = vec![
        Pick::Pair(a(), Person::new(s("b"))),
        Pick::Pair(a(), Person::new(s("b"))),
        Pick::Pair(a(), Person::new(s("d"))),
    ];
    people.apply_picks(&picks, None);
    assert_eq!(people.count_between(&s("a"), &s("b")), 2);
    assert_eq!(people.count_between(&s("a"), &s("c")), 0);
    assert_eq!(people.count_between(&s("a"), &s("d")), 1);
    let (picks, _) = people.make_selection().unwrap();
    assert_eq!(names_of(&picks[0]), vec![s("a"), s("c")]);
    assert_eq!(names_of(&picks[1]), vec![s("b"), s("d")]);
}

#[test]
fn counts_grow_only_for_grouped_pairs() {
    let people = roster(&["alice", "bob", "chuck", "dave"]);
    let (_, people) = people.make_selection().unwrap();
    assert_eq!(people.count_between(&s("alice"), &s("bob")), 1);
    assert_eq!(people.count_between(&s("bob"), &s("alice")), 1);
    assert_eq!(people.count_between(&s("chuck"), &s("dave")), 1);
    assert_eq!(people.count_between(&s("alice"), &s("chuck")), 0);
    assert_eq!(people.count_between(&s("bob"), &s("dave")), 0);
    assert_eq!(people.count_between(&s("alice"), &s("alice")), 0);
    assert_eq!(people.count_between(&s("alice"), &s("zed")), 0);
}

#[test]
fn trio_counts_every_pair_in_it() {
    let mut people = roster(&["a", "b", "c", "d"]);
    let picks = vec![Pick::Triple(
        Person::new(s("a")),
        Person::new(s("b")),
        Person::new(s("c")),
    )];
    people.apply_picks(&picks, Some(Person::new(s("b"))));
    assert_eq!(people.count_between(&s("a"), &s("b")), 1);
    assert_eq!(people.count_between(&s("a"), &s("c")), 1);
    assert_eq!(people.count_between(&s("c"), &s("b")), 1);
    assert_eq!(people.count_between(&s("a"), &s("d")), 0);
    // b opened last, so c opens next.
    let next = people.get_next_picker(&Some(Person::new(s("b"))));
    assert_eq!(next.map(|p| p.name), Some(s("c")));
}

#[test]
fn openers_go_round_the_roster() {
    let mut people = roster(&["alice", "bob", "chuck", "dave"]);
    let mut openers = Vec::new();
    for _ in 0..5 {
        let (picks, next) = people.make_selection().unwrap();
        openers.push(names_of(&picks[0])[0].clone());
        people = next;
    }
    assert_eq!(
        openers,
        vec![s("alice"), s("bob"), s("chuck"), s("dave"), s("alice")]
    );
}

#[test]
fn same_input_same_round() {
    let one = roster(&["e", "d", "c", "b", "a"]);
    let two = roster(&["a", "b", "c", "d", "e"]);
    let (first, after_first) = one.make_selection().unwrap();
    let (second, after_second) = two.make_selection().unwrap();
    assert_eq!(round_names(&first), round_names(&second));
    let (again_first, _) = after_first.make_selection().unwrap();
    let (again_second, _) = after_second.make_selection().unwrap();
    assert_eq!(round_names(&again_first), round_names(&again_second));
}

#[test]
fn next_picker_rules() {
    let people = roster(&["alice", "bob", "chuck"]);
    let name = |p: Option<Person>| p.map(|p| p.name);
    assert_eq!(name(people.get_next_picker(&None)), Some(s("alice")));
    assert_eq!(
        name(people.get_next_picker(&Some(Person::new(s("bob"))))),
        Some(s("chuck"))
    );
    assert_eq!(
        name(people.get_next_picker(&Some(Person::new(s("chuck"))))),
        Some(s("alice"))
    );
    assert_eq!(
        name(people.get_next_picker(&Some(Person::new(s("zed"))))),
        Some(s("alice"))
    );
    assert!(PersonSet::new().get_next_picker(&None).is_none());
}

#[test]
fn adding_twice_keeps_one() {
    let mut people = roster(&["alice", "bob"]);
    people.add_person(s("alice"));
    assert_eq!(people.len(), 2);
    people.add_person(s("carol"));
    assert_eq!(people.len(), 3);
}

#[test]
fn pick_contains_its_members() {
    let pick = Pick::Pair(Person::new(s("a")), Person::new(s("b")));
    assert!(pick.contains(&Person::new(s("b"))));
    assert!(!pick.contains(&Person::new(s("c"))));
    let trio = Pick::Triple(Person::new(s("a")), Person::new(s("b")), Person::new(s("c")));
    assert!(trio.contains(&Person::new(s("c"))));
}

#[test]
fn weighting_counts_each_name_once() {
    let mut p = Person::new(s("a"));
    let b = Person::new(s("b"));
    let c = Person::new(s("c"));
    p.update_weighting(vec![Person::new(s("b")), Person::new(s("c")), Person::new(s("b"))]);
    assert_eq!(p.get_weighting(&b), 1);
    assert_eq!(p.get_weighting(&c), 1);
    p.update_weighting(vec![Person::new(s("b"))]);
    assert_eq!(p.get_weighting(&b), 2);
    assert_eq!(p.get_weighting(&c), 1);
    assert_eq!(p.get_weighting(&Person::new(s("d"))), 0);
}

#[test]
fn names_compare_by_code_point() {
    assert_eq!(compare_names("alice", "bob"), Ordering::Less);
    assert_eq!(compare_names("bob", "alice"), Ordering::Greater);
    assert_eq!(compare_names("al", "alice"), Ordering::Less);
    assert_eq!(compare_names("alice", "alice"), Ordering::Equal);
    assert_eq!(compare_names("Zed", "alice"), Ordering::Less);
    assert_eq!(compare_names("", "a"), Ordering::Less);
}

#[test]
fn announcement_lists_each_group() {
    let people = roster(&["alice", "bob", "chuck", "dave", "edward"]);
    let (picks, _) = people.make_selection().unwrap();
    assert_eq!(
        announcement(&picks),
        "bru time!\n\n1. @alice and @bob\n2. @chuck, @dave and @edward\n"
    );
    assert_eq!(announcement(&Vec::new()), "bru time!\n\n");
}

#[test]
fn decimal_numbers() {
    let mut out = String::from("n=");
    push_decimal(&mut out, 0);
    assert_eq!(out, "n=0");
    let mut out = String::new();
    push_decimal(&mut out, 1207);
    assert_eq!(out, "1207");
    let mut out = String::new();
    push_decimal(&mut out, u64::MAX);
    assert_eq!(out, u64::MAX.to_string());
}

#[test]
fn a_copy_survives_a_refused_round() {
    let people = roster(&["alice"]);
    let kept = people.clone();
    assert!(people.make_selection().is_err());
    assert_eq!(kept.len(), 1);
    assert_eq!(Person::new(s("zoe")).get_name(), "zoe");
}

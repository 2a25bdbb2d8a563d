use voice::label::Label;

fn chars(s: &str) -> Vec<char> {
    s.chars().collect()
}

#[test]
fn label_names() {
    assert_eq!(Label::Male.name(), "Male");
    assert_eq!(Label::Female.name(), "Female");
}

#[test]
fn label_count_is_two() {
    assert_eq!(Label::count(), 2);
}

#[test]
fn label_index_round_trip() {
    for l in [Label::Male, Label::Female] {
        assert_eq!(Label::from_index(l.index()), l);
    }
    assert_eq!(Label::Male.index(), 0);
    assert_eq!(Label::Female.index(), 1);
    assert_eq!(Label::from_index(0), Label::Male);
    assert_eq!(Label::from_index(1), Label::Female);
    assert_eq!(Label::from_index(7), Label::Female);
}

#[test]
fn label_from_gender_column() {
    assert_eq!(Label::from_gender(&chars("male")), Some(Label::Male));
    assert_eq!(Label::from_gender(&chars("female")), Some(Label::Female));
    assert_eq!(Label::from_gender(&chars("Male")), None);
    assert_eq!(Label::from_gender(&chars("other")), None);
    assert_eq!(Label::from_gender(&chars("")), None);
    assert_eq!(Label::from_gender(&chars("males")), None);
}

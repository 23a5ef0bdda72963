use gedcom::Diagnostic;
use gedcom::FamilyTree;
use gedcom::tags::Tags;

fn lines(v: &[&str]) -> Vec<String> {
    v.iter().map(|s| String::from(*s)).collect()
}

#[test]
fn one_individual_with_name_and_sex() {
    let mut tree = FamilyTree::new();
    let diags = tree.load_lines(&lines(&["0 @I1@ INDI", "1 NAME John /Doe/", "1 SEX M"]));
    assert_eq!(diags.len(), 0);
    assert_eq!(tree.individuals.len(), 1);
    let indi = &tree.individuals[0];
    assert_eq!(indi.id, "I1");
    assert_eq!(indi.tags.tags.len(), 2);
    assert_eq!(indi.tags.tags[0].key, "NAME");
    assert_eq!(indi.tags.tags[0].value, "John /Doe/");
    assert_eq!(indi.tags.tags[1].key, "SEX");
    assert_eq!(indi.tags.tags[1].value, "M");
    assert_eq!(indi.tags.tags[0].level, 1);
}

#[test]
fn empty_input_yields_empty_tree() {
    let mut tree = FamilyTree::new();
    let diags = tree.load_lines(&lines(&[]));
    assert_eq!(diags.len(), 0);
    assert_eq!(tree.individuals.len(), 0);
    assert_eq!(tree.families.len(), 0);
    assert_eq!(tree.sources.len(), 0);
    assert_eq!(tree.objects.len(), 0);
    assert_eq!(tree.repos.len(), 0);
    assert_eq!(tree.tags.tags.len(), 0);
}

#[test]
fn unknown_trailing_token_is_reported_not_stored() {
    let mut tree = FamilyTree::new();
    let diags = tree.load_lines(&lines(&["0 @N1@ NOTE"]));
    assert_eq!(diags.len(), 1);
    match &diags[0] {
        Diagnostic::UnclassifiedBlock(block) => {
            assert_eq!(block.len(), 1);
            assert_eq!(block[0], "0 @N1@ NOTE");
        }
        other => panic!("expected an unclassified block, got {:?}", kind_of(other)),
    }
    assert_eq!(tree.individuals.len(), 0);
    assert_eq!(tree.families.len(), 0);
    assert_eq!(tree.sources.len(), 0);
    assert_eq!(tree.objects.len(), 0);
    assert_eq!(tree.repos.len(), 0);
    assert_eq!(tree.tags.tags.len(), 0);
}

fn kind_of(d: &Diagnostic) -> &'static str {
    match d {
        Diagnostic::UnclassifiedBlock(_) => "unclassified block",
        Diagnostic::LineReadFailure(_) => "line read failure",
    }
}

#[test]
fn classification_routes_each_kind() {
    let mut tree = FamilyTree::new();
    let diags = tree.load_lines(&lines(&[
        "0 HEAD",
        "1 CHAR UTF-8",
        "0 @I1@ INDI",
        "0 @F1@ FAM",
        "0 @S1@ SOUR",
        "0 @O1@ OBJE",
        "0 @R1@ REPO",
    ]));
    assert_eq!(diags.len(), 0);
    assert_eq!(tree.individuals.len(), 1);
    assert_eq!(tree.families.len(), 1);
    assert_eq!(tree.sources.len(), 1);
    assert_eq!(tree.objects.len(), 1);
    assert_eq!(tree.repos.len(), 1);
    assert_eq!(tree.individuals[0].id, "I1");
    assert_eq!(tree.families[0].id, "F1");
    assert_eq!(tree.sources[0].id, "S1");
    assert_eq!(tree.objects[0].id, "O1");
    assert_eq!(tree.repos[0].id, "R1");
    assert_eq!(tree.tags.tags.len(), 1);
    assert_eq!(tree.tags.tags[0].key, "CHAR");
    assert_eq!(tree.tags.tags[0].value, "UTF-8");
}

#[test]
fn leading_lines_before_any_record_are_unclassified() {
    let mut tree = FamilyTree::new();
    let diags = tree.load_lines(&lines(&["1 CONT stray", "2 CONT more", "0 @I1@ INDI"]));
    assert_eq!(diags.len(), 1);
    match &diags[0] {
        Diagnostic::UnclassifiedBlock(block) => {
            assert_eq!(block.len(), 2);
            assert_eq!(block[0], "1 CONT stray");
            assert_eq!(block[1], "2 CONT more");
        }
        _ => panic!("expected an unclassified block"),
    }
    assert_eq!(tree.individuals.len(), 1);
}

#[test]
fn first_added_record_wins_lookup() {
    let mut tree = FamilyTree::new();
    tree.add_individual(&lines(&["0 @I1@ INDI", "1 NAME First /One/"]));
    tree.add_individual(&lines(&["0 @I1@ INDI", "1 NAME Second /Two/"]));
    assert_eq!(tree.individuals.len(), 2);
    let found = tree.get_individual("I1").expect("I1 must be registered");
    assert_eq!(found.tags.tags[0].value, "First /One/");
}

#[test]
fn lookup_miss_is_explicit() {
    let mut tree = FamilyTree::new();
    tree.add_individual(&lines(&["0 @I1@ INDI"]));
    assert!(tree.get_individual("I2").is_none());
    assert!(tree.get_family("F1").is_none());
    assert!(tree.get_source("S1").is_none());
    assert!(tree.get_object("O1").is_none());
}

#[test]
fn getters_find_each_kind() {
    let mut tree = FamilyTree::new();
    tree.add_family(&lines(&["0 @F9@ FAM", "1 MARR"]));
    tree.add_source(&lines(&["0 @S9@ SOUR", "1 TITL census"]));
    tree.add_object(&lines(&["0 @O9@ OBJE", "1 FILE photo.jpg"]));
    assert_eq!(tree.get_family("F9").unwrap().tags.tags[0].key, "MARR");
    assert_eq!(tree.get_source("S9").unwrap().tags.tags[0].value, "census");
    assert_eq!(tree.get_object("O9").unwrap().tags.tags[0].value, "photo.jpg");
}

#[test]
fn later_header_replaces_earlier() {
    let mut tree = FamilyTree::new();
    let diags = tree.load_lines(&lines(&["0 HEAD", "1 CHAR ANSEL", "0 HEAD", "1 CHAR UTF-8"]));
    assert_eq!(diags.len(), 0);
    assert_eq!(tree.tags.tags.len(), 1);
    assert_eq!(tree.tags.tags[0].value, "UTF-8");
}

#[test]
fn loading_twice_appends() {
    let mut tree = FamilyTree::new();
    tree.load_lines(&lines(&["0 @I1@ INDI"]));
    tree.load_lines(&lines(&["0 @I2@ INDI"]));
    assert_eq!(tree.individuals.len(), 2);
    assert_eq!(tree.individuals[0].id, "I1");
    assert_eq!(tree.individuals[1].id, "I2");
}

#[test]
fn missing_markers_give_empty_id() {
    let mut tree = FamilyTree::new();
    tree.add_individual(&lines(&["0 I1 INDI"]));
    assert_eq!(tree.individuals[0].id, "");
    let mut tree2 = FamilyTree::new();
    tree2.add_individual(&lines(&["0 @I1 INDI"]));
    assert_eq!(tree2.individuals[0].id, "");
}

#[test]
fn builder_handles_short_and_spaceless_lines() {
    // A bare level digit and a digit with only a space yield no node; a
    // line without a value yields an empty value.
    let tags = Tags::new(1, &lines(&["1", "1 ", "1 NAME"]));
    assert_eq!(tags.tags.len(), 1);
    assert_eq!(tags.tags[0].key, "NAME");
    assert_eq!(tags.tags[0].value, "");
}

#[test]
fn builder_keeps_non_ascii_values() {
    let tags = Tags::new(0, &lines(&["0 NOTE caf\u{e9} \u{263a}", "1 CONT sequel"]));
    assert_eq!(tags.tags.len(), 1);
    assert_eq!(tags.tags[0].value, "caf\u{e9} \u{263a}");
    assert_eq!(tags.tags[0].children.tags.len(), 1);
    assert_eq!(tags.tags[0].children.tags[0].value, "sequel");
}

#[test]
fn deeper_level_prefix_is_not_an_opener() {
    // "10 X" begins with the digit 1 but opens level ten, not level one.
    let tags = Tags::new(1, &lines(&["1 NOTE a", "10 X", "1 NOTE b"]));
    assert_eq!(tags.tags.len(), 2);
    assert_eq!(tags.tags[0].children.tags.len(), 0);
}

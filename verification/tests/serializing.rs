use gedcom::FamilyTree;
use gedcom::Record;
use gedcom::tag::Tag;
use gedcom::tags::Tags;

fn lines(v: &[&str]) -> Vec<String> {
    v.iter().map(|s| String::from(*s)).collect()
}

#[test]
fn serialization_round_trips() {
    let input = lines(&[
        "0 HEAD",
        "1 SOUR conjurer",
        "2 VERS 1.0",
        "1 CHAR UTF-8",
        "0 @I1@ INDI",
        "1 NAME John /Doe/",
        "2 GIVN John",
        "1 SEX M",
    ]);
    let tags = Tags::new(0, &input);
    let out = tags.to_gedcom_file();
    assert_eq!(out, input);
    let rebuilt = Tags::new(0, &out);
    let out2 = rebuilt.to_gedcom_file();
    assert_eq!(out2, input);
}

#[test]
fn serialization_omits_empty_values() {
    let tags = Tags::new(0, &lines(&["0 HEAD", "1 GEDC", "2 VERS 5.5"]));
    let out = tags.to_gedcom_file();
    assert_eq!(out, lines(&["0 HEAD", "1 GEDC", "2 VERS 5.5"]));
}

#[test]
fn header_serializes_from_the_tree() {
    let mut tree = FamilyTree::new();
    tree.load_lines(&lines(&["0 HEAD", "1 SOUR conjurer", "1 CHAR UTF-8"]));
    let out = tree.tags.to_gedcom_file();
    // The header tree holds the level-1 tags; the depth-0 opener belongs to
    // the dispatcher, not to the tree.
    assert_eq!(out, lines(&["1 SOUR conjurer", "1 CHAR UTF-8"]));
}

#[test]
fn decorated_html_wraps_keys() {
    let tags = Tags::new(1, &lines(&["1 NAME John /Doe/", "2 GIVN John", "1 SEX M"]));
    let out = tags.to_decorated_html();
    assert_eq!(
        out,
        lines(&["<b>NAME</b> John /Doe/", "<b>GIVN</b> John", "<b>SEX</b> M"])
    );
}

#[test]
fn find_one_returns_first_match() {
    let tags = Tags::new(1, &lines(&["1 NAME first", "1 SEX M", "1 NAME second"]));
    let hit = tags.find_one("NAME").expect("NAME is present");
    assert_eq!(hit.value, "first");
    assert!(tags.find_one("BIRT").is_none());
}

#[test]
fn a_tag_built_by_hand_serializes_itself() {
    let body = lines(&["2 GIVN John", "2 SURN Doe"]);
    let tag = Tag::new(1, String::from("NAME"), String::from("John /Doe/"), &body);
    assert_eq!(tag.children.tags.len(), 2);
    assert_eq!(
        tag.to_gedcom_file(),
        lines(&["1 NAME John /Doe/", "2 GIVN John", "2 SURN Doe"])
    );
}

#[test]
fn a_record_keeps_its_block_tree() {
    let record = Record::new(&lines(&["0 @R2@ REPO", "1 NAME archive"]));
    assert_eq!(record.id, "R2");
    assert_eq!(record.tags.tags.len(), 1);
    assert_eq!(record.tags.tags[0].value, "archive");
}

#[test]
fn empty_tags_serialize_to_nothing() {
    let tags = Tags::new_empty();
    assert_eq!(tags.to_gedcom_file().len(), 0);
    assert_eq!(tags.to_decorated_html().len(), 0);
}

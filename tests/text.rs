use fastax::terms::{clean_term, fill_ids, parse_id, split_terms, trim};
use fastax::text::{decimal_string, replace_all};
use fastax::Node;

fn human() -> Node {
    Node {
        tax_id: 9606,
        parent_tax_id: 9605,
        rank: String::from("species"),
        division: String::from("Primates"),
        genetic_code: String::from("Standard"),
        mito_genetic_code: Some(String::from("Vertebrate Mitochondrial")),
        comments: Some(String::from("modern man")),
        names: vec![
            (String::from("scientific name"), vec![String::from("Homo sapiens")]),
            (String::from("genbank common name"), vec![String::from("human")]),
            (String::from("common name"), vec![String::from("man"), String::from("people")]),
            (String::from("authority"), vec![String::from("Homo sapiens Linnaeus, 1758")]),
        ],
        format_string: None,
    }
}

#[test]
fn full_description() {
    let expected = [
        "Homo sapiens - species\n",
        "----------------------\n",
        "NCBI Taxonomy ID: 9606\n",
        "Commonly named human.\n",
        "Also known as:\n",
        "* man\n",
        "* people\n",
        "First description:\n",
        "* Homo sapiens Linnaeus, 1758\n",
        "Part of the Primates.\n",
        "Uses the Standard genetic code.\n",
        "Its mitochondria use the Vertebrate Mitochondrial genetic code.\n",
        "\nComments: modern man",
    ].concat();
    assert_eq!(human().describe(), expected);
    assert_eq!(human().display_text(), expected);
}

#[test]
fn description_with_synonyms_and_no_optional_parts() {
    let mut n = human();
    n.names = vec![
        (String::from("synonym"), vec![String::from("Homo sapiens sapiens")]),
        (String::from("scientific name"), vec![String::from("Homo sapiens")]),
    ];
    n.mito_genetic_code = None;
    n.comments = None;
    let expected = [
        "Homo sapiens - species\n",
        "----------------------\n",
        "NCBI Taxonomy ID: 9606\n",
        "Same as:\n",
        "* Homo sapiens sapiens\n",
        "Part of the Primates.\n",
        "Uses the Standard genetic code.\n",
    ].concat();
    assert_eq!(n.describe(), expected);
}

#[test]
fn underline_counts_bytes() {
    let mut n = human();
    n.names = vec![(String::from("scientific name"), vec![String::from("\u{e9}t\u{e9}")])];
    n.rank = String::from("genus");
    let text = n.describe();
    let second = text.lines().nth(1).unwrap();
    assert_eq!(second, "-".repeat("\u{e9}t\u{e9} - genus".len()));
    assert_eq!(second.len(), 13);
}

#[test]
fn template_substitution() {
    let n = human();
    assert_eq!(n.fill_template("%rank: %name (%taxid)"), "species: Homo sapiens (9606)");
    assert_eq!(n.fill_template("%name%name"), "Homo sapiensHomo sapiens");
    assert_eq!(n.fill_template("plain"), "plain");
    let mut m = human();
    m.format_string = Some(String::from("%taxid"));
    assert_eq!(m.display_text(), "9606");
}

#[test]
fn template_substitution_is_literal_and_ordered() {
    let mut n = human();
    n.rank = String::from("%taxid");
    assert_eq!(n.fill_template("%rank"), "%taxid");
    n.names = vec![(String::from("scientific name"), vec![String::from("%rank")])];
    assert_eq!(n.fill_template("%name"), "%taxid");
}

#[test]
fn decimal_rendering() {
    assert_eq!(decimal_string(0), "0");
    assert_eq!(decimal_string(9606), "9606");
    assert_eq!(decimal_string(-42), "-42");
    assert_eq!(decimal_string(i64::MAX), "9223372036854775807");
    assert_eq!(decimal_string(i64::MIN), "-9223372036854775808");
}

#[test]
fn replace_scans_left_to_right() {
    assert_eq!(replace_all("aaa", "aa", "b"), "ba");
    assert_eq!(replace_all("a_b_c", "_", " "), "a b c");
    assert_eq!(replace_all("abc", "", "x"), "abc");
    assert_eq!(replace_all("", "a", "x"), "");
}

#[test]
fn trimming_terms() {
    assert_eq!(trim("  Homo sapiens\t\n"), "Homo sapiens");
    assert_eq!(trim("\u{3000}x\u{a0}"), "x");
    assert_eq!(trim("   "), "");
    assert_eq!(clean_term(" Homo_sapiens "), "Homo sapiens");
}

#[test]
fn parsing_ids() {
    assert_eq!(parse_id("9606"), Some(9606));
    assert_eq!(parse_id("+7"), Some(7));
    assert_eq!(parse_id("-12"), Some(-12));
    assert_eq!(parse_id("9223372036854775807"), Some(i64::MAX));
    assert_eq!(parse_id("-9223372036854775808"), Some(i64::MIN));
    assert_eq!(parse_id("9223372036854775808"), None);
    assert_eq!(parse_id("99999999999999999999999"), None);
    assert_eq!(parse_id(""), None);
    assert_eq!(parse_id("-"), None);
    assert_eq!(parse_id("12a"), None);
    assert_eq!(parse_id("Homo sapiens"), None);
    for s in ["0", "42", "-5", "+5", "", "x1", "1 ", "-9223372036854775809"] {
        assert_eq!(parse_id(s), s.parse::<i64>().ok());
    }
}

#[test]
fn terms_keep_their_order() {
    let terms = vec![
        String::from(" 9606"),
        String::from("Homo_sapiens"),
        String::from("562"),
        String::from("Mus musculus "),
    ];
    let (parsed, names) = split_terms(&terms);
    assert_eq!(parsed, vec![Some(9606), None, Some(562), None]);
    assert_eq!(names, vec![String::from("Homo sapiens"), String::from("Mus musculus")]);
    assert_eq!(fill_ids(&parsed, &[9606, 10090]), vec![9606, 9606, 562, 10090]);
    assert_eq!(fill_ids(&parsed, &[1]), vec![9606, 1, 562, -1]);
}

#[test]
fn name_lists_are_checked() {
    assert!(human().is_well_formed());
    let mut no_sci = human();
    no_sci.names.remove(0);
    assert!(!no_sci.is_well_formed());
    let mut empty_synonyms = human();
    empty_synonyms.names.push((String::from("synonym"), vec![]));
    assert!(empty_synonyms.is_well_formed());
    let mut empty_sci = human();
    empty_sci.names[0].1.clear();
    assert!(!empty_sci.is_well_formed());
    let mut empty_genbank = human();
    empty_genbank.names[1].1.clear();
    assert!(!empty_genbank.is_well_formed());
    assert!(empty_genbank.has_sci_name());
    assert!(!empty_sci.has_sci_name());
    assert!(!no_sci.has_sci_name());
}

#[test]
fn templates_need_only_a_scientific_name() {
    let mut n = human();
    n.names[1].1.clear();
    n.format_string = Some(String::from("%name (%rank)"));
    assert_eq!(n.display_text(), "Homo sapiens (species)");
    assert_eq!(n.fill_template("%taxid"), "9606");
}

#[test]
fn empty_synonym_list_still_renders() {
    let mut n = human();
    n.names.push((String::from("synonym"), vec![]));
    n.mito_genetic_code = None;
    n.comments = None;
    let text = n.describe();
    assert!(text.contains("Same as:\nCommonly named human.\n"));
    assert_eq!(n.fill_template("%name"), "Homo sapiens");
    let copy = n.clone();
    assert_eq!(copy.describe(), text);
    assert_eq!(Node::default().tax_id, 0);
}

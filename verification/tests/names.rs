use janitor::names::{
    dedupe, format_tokens, make_clean_names, tokenize_ascii, tokens_of_decomposed, CaseStyle,
    NameError, CASE_ERROR,
};

fn strings(values: &[&str]) -> Vec<String> {
    values.iter().map(|value| value.to_string()).collect()
}

#[test]
fn cleans_representative_janitor_names() {
    let names = strings(&[
        "Customer ID",
        "Customer ID",
        "% Complete",
        "Mötley Crüe",
        "",
        "",
        "OrderID",
        "1st Sale",
    ]);

    assert_eq!(
        make_clean_names(&names, "snake").unwrap(),
        vec![
            "customer_id",
            "customer_id_2",
            "percent_complete",
            "motley_crue",
            "x",
            "x_2",
            "order_id",
            "x_1_st_sale"
        ]
    );
}

#[test]
fn supports_all_case_styles() {
    let names = strings(&["Customer ID", "% Complete", "alreadyClean"]);

    assert_eq!(
        make_clean_names(&names, "snake").unwrap(),
        vec!["customer_id", "percent_complete", "already_clean"]
    );
    assert_eq!(
        make_clean_names(&names, "constant").unwrap(),
        vec!["CUSTOMER_ID", "PERCENT_COMPLETE", "ALREADY_CLEAN"]
    );
    assert_eq!(
        make_clean_names(&names, "camel").unwrap(),
        vec!["customerId", "percentComplete", "alreadyClean"]
    );
    assert_eq!(
        make_clean_names(&names, "pascal").unwrap(),
        vec!["CustomerId", "PercentComplete", "AlreadyClean"]
    );
}

#[test]
fn duplicate_suffixes_are_stable() {
    let names = strings(&["a", "a", "a_2", "a"]);

    assert_eq!(
        make_clean_names(&names, "snake").unwrap(),
        vec!["a", "a_2", "a_2_2", "a_3"]
    );
}

#[test]
fn rejects_invalid_case() {
    assert_eq!(
        make_clean_names(&[String::from("a")], "kebab")
            .unwrap_err()
            .message(),
        CASE_ERROR
    );
}

#[test]
fn symbols_and_letters_are_spelled_out() {
    let names = strings(&["a#b", "x&y", "me@home", "1+1", "Straße", "Æsir", "Łódź", "Þór", "ø"]);
    assert_eq!(
        make_clean_names(&names, "snake").unwrap(),
        vec![
            "a_number_b",
            "x_and_y",
            "me_at_home",
            "x_1_plus_1",
            "strasse",
            "a_esir",
            "lodz",
            "thor",
            "o"
        ]
    );
}

#[test]
fn token_boundaries_follow_case_and_digits() {
    let names = strings(&["HTTPServer", "version2Beta", "ABC", "a1b2", "  padded\t"]);
    assert_eq!(
        make_clean_names(&names, "snake").unwrap(),
        vec!["http_server", "version_2_beta", "abc", "a_1_b_2", "padded"]
    );
}

#[test]
fn digit_start_gets_a_prefix_in_every_style() {
    let names = strings(&["2nd place"]);
    assert_eq!(make_clean_names(&names, "snake").unwrap(), vec!["x_2_nd_place"]);
    assert_eq!(make_clean_names(&names, "constant").unwrap(), vec!["X_2_ND_PLACE"]);
    assert_eq!(make_clean_names(&names, "camel").unwrap(), vec!["x2NdPlace"]);
    assert_eq!(make_clean_names(&names, "pascal").unwrap(), vec!["X2NdPlace"]);
}

#[test]
fn camel_and_pascal_suffixes_have_no_separator() {
    let names = strings(&["a b", "A B", "a_b"]);
    assert_eq!(make_clean_names(&names, "camel").unwrap(), vec!["aB", "aB2", "aB3"]);
    assert_eq!(make_clean_names(&names, "pascal").unwrap(), vec!["AB", "AB2", "AB3"]);
    assert_eq!(make_clean_names(&names, "constant").unwrap(), vec!["A_B", "A_B_2", "A_B_3"]);
}

#[test]
fn suffixes_reach_two_digits() {
    let names = strings(&["a"; 12]);
    let cleaned = make_clean_names(&names, "snake").unwrap();
    assert_eq!(cleaned[10], "a_11");
    assert_eq!(cleaned[11], "a_12");
}

#[test]
fn cleaned_names_keep_length_and_are_distinct_and_nonempty() {
    let names = strings(&["", " ", "%", "a", "A", "a_2", "a", "ß", "ss", "1", "x_1"]);
    let cleaned = make_clean_names(&names, "snake").unwrap();
    assert_eq!(cleaned.len(), names.len());
    for (i, a) in cleaned.iter().enumerate() {
        assert!(!a.is_empty());
        for b in &cleaned[i + 1..] {
            assert_ne!(a, b);
        }
    }
}

#[test]
fn cleaning_snake_names_again_changes_nothing() {
    let names = strings(&["Customer ID", "Customer ID", "1st Sale", "", "", "OrderID", "Mötley Crüe"]);
    let cleaned = make_clean_names(&names, "snake").unwrap();
    assert_eq!(make_clean_names(&cleaned, "snake").unwrap(), cleaned);
}

#[test]
fn empty_list_gives_empty_list() {
    assert!(make_clean_names(&[], "snake").unwrap().is_empty());
    assert_eq!(make_clean_names(&[], "Snake").unwrap_err().message(), CASE_ERROR);
}

fn clean(names: &[&str], case: &str) -> Vec<String> {
    let names: Vec<String> = names.iter().map(|name| name.to_string()).collect();
    make_clean_names(&names, case).unwrap()
}

#[test]
fn case_styles_spell_the_same_names() {
    let names = ["Customer ID", "customer id", "1st Sale", "%", "", "", "Größe Ærø", "a_2", "A"];
    let snake = clean(&names, "snake");
    let constant = clean(&names, "constant");
    let camel = clean(&names, "camel");
    let pascal = clean(&names, "pascal");
    assert_eq!(constant, snake.iter().map(|name| name.to_uppercase()).collect::<Vec<_>>());
    for (camel, pascal) in camel.iter().zip(&pascal) {
        let mut chars = camel.chars();
        let first = chars.next().unwrap().to_ascii_uppercase();
        assert_eq!(*pascal, format!("{first}{}", chars.as_str()));
    }
    assert_eq!(clean(&["élan"], "constant"), ["ELAN"]);
}

#[test]
fn a_cleaned_name_does_not_depend_on_later_names() {
    let names = ["a", "a", "a_2", "a", "b", "a_3", "A"];
    let all = clean(&names, "snake");
    for k in 0..=names.len() {
        assert_eq!(clean(&names[..k], "snake"), all[..k].to_vec());
    }
}

#[test]
fn a_separator_splits_the_tokens() {
    assert_eq!(clean(&["fooBar-Baz2x"], "snake"), ["foo_bar_baz_2_x"]);
    assert_eq!(clean(&["fooBar"], "snake"), ["foo_bar"]);
    assert_eq!(clean(&["Baz2x"], "snake"), ["baz_2_x"]);
    assert_eq!(clean(&["ABC.Def"], "snake"), ["abc_def"]);
    assert_eq!(clean(&["ABCDef"], "snake"), ["abc_def"]);
}

fn chars(text: &str) -> Vec<char> {
    text.chars().collect()
}

fn token_texts(tokens: Vec<Vec<char>>) -> Vec<String> {
    tokens.into_iter().map(|token| token.into_iter().collect()).collect()
}

#[test]
fn format_tokens_upper_cases_every_letter_in_constant_style() {
    let tokens = vec![chars("é"), chars("straße")];
    let text = |case| format_tokens(&tokens, case).into_iter().collect::<String>();
    assert_eq!(text(CaseStyle::Constant), "É_STRASSE");
    assert_eq!(text(CaseStyle::Snake), "é_straße");
    assert_eq!(text(CaseStyle::Camel), "éStraße");
    assert_eq!(text(CaseStyle::Pascal), "éStraße");
    let clean = vec![chars("customer"), chars("id")];
    assert_eq!(format_tokens(&clean, CaseStyle::Constant).into_iter().collect::<String>(), "CUSTOMER_ID");
}

#[test]
fn tokenizer_splits_at_separators() {
    for (a, b) in [("fooBar", "Baz2x"), ("ABC", "Def"), ("", "x1"), ("a b", "")] {
        for sep in ['-', ' ', '.', 'é'] {
            let joined = format!("{a}{sep}{b}");
            let mut expected = token_texts(tokenize_ascii(&chars(a)));
            expected.extend(token_texts(tokenize_ascii(&chars(b))));
            assert_eq!(token_texts(tokenize_ascii(&chars(&joined))), expected);
        }
    }
}

#[test]
fn dedupe_of_a_prefix_is_the_prefix_of_dedupe() {
    let names = strings(&["a", "a", "a_2", "a", "b", "a_3", "b"]);
    let all = dedupe(&names, CaseStyle::Snake);
    assert_eq!(all, ["a", "a_2", "a_2_2", "a_3", "b", "a_3_2", "b_2"]);
    for k in 0..=names.len() {
        assert_eq!(dedupe(&names[..k].to_vec(), CaseStyle::Snake), all[..k].to_vec());
    }
}

#[test]
fn name_error_keeps_its_message() {
    assert_eq!(NameError::new("bad case").message(), "bad case");
    assert_eq!(NameError::new(CASE_ERROR).message(), CASE_ERROR);
}

#[test]
fn decomposed_text_loses_its_marks_before_splitting() {
    let decomposed = chars("Mo\u{308}tley Cru\u{308}e");
    assert_eq!(token_texts(tokens_of_decomposed(&decomposed)), ["motley", "crue"]);
}

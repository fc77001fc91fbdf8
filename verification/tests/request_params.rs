use veloci::request_params::{
    accepts_upload_type, check_upload, enable_flame, first_values, param, parse_usize,
    query_param_to_vec, search_params, split_on, suggest_params, NumberParam, ParamError,
    UploadError,
};

fn params(v: &[(&str, &str)]) -> Vec<(String, String)> {
    v.iter().map(|(k, v)| (k.to_string(), v.to_string())).collect()
}

#[test]
fn split_agrees_with_std() {
    let cases = ["", ",", "a", "a,b", "a,,b", ",a,", "a->b", "a->b->c", "->", "-->", "a->"];
    for case in cases.iter() {
        let comma: Vec<String> = case.split(",").map(|s| s.to_string()).collect();
        assert_eq!(split_on(case, &vec![',']), comma);
        let arrow: Vec<String> = case.split("->").map(|s| s.to_string()).collect();
        assert_eq!(split_on(case, &vec!['-', '>']), arrow);
    }
}

#[test]
fn usize_parsing_agrees_with_std() {
    let cases = [
        "", "0", "7", "+7", "-7", "+", "12a", " 1", "007", "18446744073709551615",
        "18446744073709551616", "99999999999999999999999", "4294967295", "4294967296",
    ];
    for case in cases.iter() {
        assert_eq!(parse_usize(case), case.parse::<usize>().ok(), "case {:?}", case);
    }
}

#[test]
fn first_values_keep_the_first_value() {
    let query = vec![
        ("query".to_string(), vec!["haus".to_string(), "boot".to_string()]),
        ("top".to_string(), vec!["10".to_string()]),
    ];
    assert_eq!(first_values(&query), params(&[("query", "haus"), ("top", "10")]));
}

#[test]
fn lists_are_comma_separated() {
    let p = params(&[("fields", "title,tags"), ("facets", "")]);
    assert_eq!(param(&p, &"fields".to_string()), Some(&"title,tags".to_string()));
    assert_eq!(
        query_param_to_vec(&"fields".to_string(), &p),
        Some(vec!["title".to_string(), "tags".to_string()])
    );
    assert_eq!(query_param_to_vec(&"facets".to_string(), &p), Some(vec!["".to_string()]));
    assert_eq!(query_param_to_vec(&"other".to_string(), &p), None);
}

#[test]
fn search_params_are_read() {
    let p = params(&[
        ("query", "die erbin"),
        ("top", "10"),
        ("skip", "+2"),
        ("operator", "and"),
        ("facets", "tags,year"),
        ("boost_fields", "title->2.0,tags->0.5->x"),
    ]);
    let s = search_params(&p).unwrap();
    assert_eq!(s.query, "die erbin");
    assert_eq!(s.top, Some(10));
    assert_eq!(s.skip, Some(2));
    assert_eq!(s.operator, Some("and".to_string()));
    assert_eq!(s.levenshtein, None);
    assert_eq!(s.facetlimit, None);
    assert_eq!(s.facets, Some(vec!["tags".to_string(), "year".to_string()]));
    assert_eq!(s.fields, None);
    assert_eq!(
        s.boost_fields,
        vec![
            ("title".to_string(), "2.0".to_string()),
            ("tags".to_string(), "0.5".to_string())
        ]
    );
}

#[test]
fn a_repeated_boost_field_keeps_its_last_boost() {
    let p = params(&[("query", "a"), ("boost_fields", "title->2.0,tags->1,title->3.5")]);
    let s = search_params(&p).unwrap();
    assert_eq!(
        s.boost_fields,
        vec![
            ("title".to_string(), "3.5".to_string()),
            ("tags".to_string(), "1".to_string())
        ]
    );
}

#[test]
fn search_param_errors_come_in_order() {
    assert_eq!(search_params(&params(&[("top", "x")])).map(|_| ()), Err(ParamError::MissingQuery));
    assert_eq!(
        search_params(&params(&[("query", "a"), ("top", "x"), ("facetlimit", "-1")])).map(|_| ()),
        Err(ParamError::InvalidNumber(NumberParam::FacetLimit))
    );
    assert_eq!(
        search_params(&params(&[("query", "a"), ("top", "x"), ("boost_fields", "title")])).map(|_| ()),
        Err(ParamError::BoostWithoutArrow)
    );
    assert_eq!(
        search_params(&params(&[("query", "a"), ("boost_fields", "title->big")])).map(|_| ()),
        Err(ParamError::InvalidBoost)
    );
    assert_eq!(
        search_params(&params(&[("query", "a"), ("skip", "x"), ("top", "1.5")])).map(|_| ()),
        Err(ParamError::InvalidNumber(NumberParam::Top))
    );
    assert_eq!(
        search_params(&params(&[("query", "a"), ("levenshtein", "x"), ("skip", "")])).map(|_| ()),
        Err(ParamError::InvalidNumber(NumberParam::Skip))
    );
    assert_eq!(
        search_params(&params(&[("query", "a"), ("levenshtein", "two")])).map(|_| ()),
        Err(ParamError::InvalidNumber(NumberParam::Levenshtein))
    );
}

#[test]
fn suggest_params_are_read() {
    let s = suggest_params(&params(&[("query", "erb"), ("levenshtein", "1"), ("fields", "title")]))
        .unwrap();
    assert_eq!(s.query, "erb");
    assert_eq!(s.levenshtein, Some(1));
    assert_eq!(s.top, None);
    assert_eq!(s.fields, Some(vec!["title".to_string()]));
    assert_eq!(suggest_params(&params(&[])).map(|_| ()), Err(ParamError::MissingQuery));
    assert_eq!(
        suggest_params(&params(&[("query", "a"), ("skip", "s")])).map(|_| ()),
        Err(ParamError::InvalidNumber(NumberParam::Skip))
    );
}

#[test]
fn flame_is_asked_for_by_its_parameter() {
    assert!(enable_flame(&params(&[("flame", "")])));
    assert!(!enable_flame(&params(&[("query", "a")])));
}

#[test]
fn uploads_need_one_field_with_one_file() {
    assert_eq!(check_upload(&vec![]), Err(UploadError::FieldCount(0)));
    assert_eq!(check_upload(&vec![1, 1]), Err(UploadError::FieldCount(2)));
    assert_eq!(check_upload(&vec![2]), Err(UploadError::FileCount));
    assert_eq!(check_upload(&vec![1]), Ok(()));
}

#[test]
fn upload_content_types() {
    let t = |a: &str, b: &str| accepts_upload_type(&a.to_string(), &b.to_string());
    assert!(t("application", "x-www-form-urlencoded"));
    assert!(t("multipart", "form-data"));
    assert!(!t("application", "json"));
    assert!(!t("multipart", "x-www-form-urlencoded"));
}

use data_query::{
    compile, compile_chars, copy_value, generic_compiler, query_processor, QueryFault, generic_object_index, key_match_map, match_slice_to_key,
    parse_usize, query, query_unsupported, query_str, usize_to_decimal, ComType, GenericObjectIndex,
    JsonValue, LexOperator, LexerError, QueryError, Slicer,
};

fn text(x: &str) -> JsonValue {
    JsonValue::String(x.to_string())
}

fn num(x: &str) -> JsonValue {
    JsonValue::Number(x.to_string())
}

fn obj(members: Vec<(&str, JsonValue)>) -> JsonValue {
    JsonValue::Object(members.into_iter().map(|(k, v)| (k.to_string(), v)).collect())
}

fn friend(id: &str, name: &str) -> JsonValue {
    obj(vec![("id", num(id)), ("name", text(name))])
}

/// The test user, as serde_json writes it (members in
/// key order).
fn user() -> JsonValue {
    obj(vec![
        ("age", num("32")),
        ("balance", text("$1,446.35")),
        ("company", text("ARTIQ")),
        ("email", text("logankeller@artiq.com")),
        ("eye_color", text("green")),
        ("favorite_fruit", text("banana")),
        (
            "friends",
            JsonValue::Array(vec![
                friend("0", "Colon Salazar"),
                friend("1", "French Mcneil"),
                friend("2", "Carol Martin"),
            ]),
        ),
        ("gender", text("male")),
        ("id", text("5973782bdb9a930533b05cb2")),
        ("is_active", JsonValue::Bool(true)),
        (
            "metadata",
            obj(vec![
                ("annotations", obj(vec![("mesh.controller.io/group", text("env-01"))])),
                ("namespace", text("Randoms")),
            ]),
        ),
        ("name", text("Logan Keller")),
        ("phone", text("+1 (952) 533-2258")),
    ])
}

fn ident(x: &str) -> LexOperator {
    LexOperator::Identifier(x.to_string())
}

fn run(q: &str, data: JsonValue) -> Result<JsonValue, QueryError> {
    let lex = compile(q).unwrap();
    assert!(!query_unsupported(&data, &lex));
    query(data, lex)
}

#[test]
fn test_com_type() {
    let large = ComType::from(100);
    let mid = ComType::from(50);
    let low = ComType::from(10);
    assert!(large == large);
    assert!(mid < large);
    assert!(low < mid);
}

#[test]
fn test_proc_macro() {
    let lex = compile(".metadata[1,2,4-6,hello]").unwrap();
    println!("{:?}", lex);
    assert_eq!(
        lex,
        vec![
            ident("metadata"),
            LexOperator::Generic(GenericObjectIndex::Slice(vec![
                Slicer::Index(1),
                Slicer::Index(2),
                Slicer::Slice(4, 6),
                Slicer::Ident("hello".to_string()),
            ])),
        ]
    );
}

#[test]
fn test_query_precompile() {
    let lex = compile(".friends[1].name").unwrap();
    println!("{:?}", lex);
    let data = user();
    let query_res = query(data, lex);
    println!("{:?}", query_res);
    assert_eq!(query_res.unwrap(), JsonValue::Array(vec![text("French Mcneil")]));
}

#[test]
fn test_query_multiple_results_precompile() {
    let lex = compile(".friends[1,2].name").unwrap();
    println!("{:?}", lex);
    let data = user();
    let query_res = query(data, lex);
    println!("{:?}", query_res);
    assert_eq!(
        query_res.unwrap(),
        JsonValue::Array(vec![text("French Mcneil"), text("Carol Martin")])
    );
}

#[test]
fn test_query() {
    let lex = compile(".friends[1].name").unwrap();
    println!("{:?}", lex);
    let data = user();
    let query_res = query(data, lex);
    println!("{:?}", query_res);
    assert_eq!(query_res.unwrap(), JsonValue::Array(vec![text("French Mcneil")]));
}

#[test]
fn test_query_multiple_results() {
    let lex = compile(".friends[1,2].name").unwrap();
    println!("{:?}", lex);
    let data = user();
    let query_res = query(data, lex);
    println!("{:?}", query_res);
    assert_eq!(
        query_res.unwrap(),
        JsonValue::Array(vec![text("French Mcneil"), text("Carol Martin")])
    );
}

#[test]
fn test_query_results_subident() {
    let lex = compile(".metadata.namespace.").unwrap();
    println!("{:?}", lex);
    let data = user();
    let query_res = query(data, lex);
    println!("{:?}", query_res);
    assert_eq!(query_res.unwrap(), JsonValue::Array(vec![text("Randoms")]));
}

#[test]
fn compile_names_and_indices() {
    assert_eq!(
        compile(".some-key.some-other-key").unwrap(),
        vec![ident("some-key"), ident("some-other-key")]
    );
    assert_eq!(
        compile(".some-array[0-2,6]").unwrap(),
        vec![
            ident("some-array"),
            LexOperator::Generic(GenericObjectIndex::Slice(vec![Slicer::Slice(0, 2), Slicer::Index(6)])),
        ]
    );
    assert_eq!(
        compile(".some-map[key1, key2]").unwrap(),
        vec![
            ident("some-map"),
            LexOperator::Generic(GenericObjectIndex::Slice(vec![
                Slicer::Ident("key1".to_string()),
                Slicer::Ident("key2".to_string()),
            ])),
        ]
    );
}

#[test]
fn compile_open_ranges_wildcard_and_empty_items() {
    assert_eq!(
        compile("[3-, -4 , ,]").unwrap(),
        vec![LexOperator::Generic(GenericObjectIndex::Slice(vec![Slicer::SliceFrom(3), Slicer::SliceTo(4)]))]
    );
    assert_eq!(compile(".a[]").unwrap(), vec![ident("a"), LexOperator::Generic(GenericObjectIndex::Wildcard)]);
    assert_eq!(compile("[ , ]").unwrap(), vec![LexOperator::Generic(GenericObjectIndex::Wildcard)]);
    assert_eq!(compile("").unwrap(), vec![]);
    assert_eq!(compile("..").unwrap(), vec![]);
    assert_eq!(compile("a.b").unwrap(), vec![ident("a"), ident("b")]);
    assert_eq!(
        compile("[1-x]").unwrap(),
        vec![LexOperator::Generic(GenericObjectIndex::Slice(vec![Slicer::Ident("1-x".to_string())]))]
    );
    assert_eq!(
        compile("[a]]").unwrap(),
        vec![LexOperator::Generic(GenericObjectIndex::Slice(vec![Slicer::Ident("a".to_string())])), ident("]")]
    );
}

#[test]
fn compile_trailing_dot_changes_nothing() {
    assert_eq!(compile(".a[1].b.").unwrap(), compile(".a[1].b").unwrap());
    assert_eq!(compile(".x.").unwrap(), vec![ident("x")]);
}

#[test]
fn compile_unclosed_generic_is_end_of_query() {
    assert_eq!(
        compile(".friends[1").unwrap_err(),
        LexerError::EndOfQuery { expected: "]".to_string() }
    );
}

#[test]
fn compile_too_large_number_fails_to_parse() {
    let overflow = "99999999999999999999999".parse::<usize>().unwrap_err();
    assert_eq!(compile("[99999999999999999999999]").unwrap_err(), LexerError::FailedToParseInt(overflow.clone()));
    assert_eq!(compile("[1-99999999999999999999999]").unwrap_err(), LexerError::FailedToParseInt(overflow.clone()));
    let e: LexerError = overflow.clone().into();
    assert_eq!(e, LexerError::FailedToParseInt(overflow));
}

#[test]
fn compile_chars_continues_a_name() {
    let chars: Vec<char> = "bc.d".chars().collect();
    assert_eq!(compile_chars(&chars, "a".to_string()).unwrap(), vec![ident("abc"), ident("d")]);
}

#[test]
fn generic_compiler_reads_one_step_from_the_top() {
    assert_eq!(generic_compiler(&vec!['.'], String::new()).unwrap(), vec![ident("")]);
    assert_eq!(generic_compiler(&vec!['x', '.'], "ab".to_string()).unwrap(), vec![ident("ab")]);
    assert_eq!(generic_compiler(&vec!['x'], "ab".to_string()).unwrap(), vec![]);
    assert_eq!(generic_compiler(&vec![], "ab".to_string()).unwrap(), vec![]);
    assert_eq!(
        generic_compiler(&vec![']', '['], String::new()).unwrap(),
        vec![LexOperator::Generic(GenericObjectIndex::Wildcard)]
    );
    let stack: Vec<char> = "[1, 2-3]".chars().rev().collect();
    assert_eq!(
        generic_compiler(&stack, String::new()).unwrap(),
        vec![LexOperator::Generic(GenericObjectIndex::Slice(vec![Slicer::Index(1), Slicer::Slice(2, 3)]))]
    );
    assert_eq!(
        generic_compiler(&vec!['1', '['], String::new()).unwrap_err(),
        LexerError::EndOfQuery { expected: "]".to_string() }
    );
}

#[test]
fn generic_object_index_reads_between_brackets() {
    let chars: Vec<char> = "[ 7 ,a-b]".chars().collect();
    assert_eq!(
        generic_object_index(&chars, 1, 8).unwrap(),
        GenericObjectIndex::Slice(vec![Slicer::Index(7), Slicer::Ident("a-b".to_string())])
    );
    assert_eq!(generic_object_index(&chars, 1, 1).unwrap(), GenericObjectIndex::Wildcard);
}

#[test]
fn query_with_no_steps_returns_input() {
    let data = user();
    let res = query(copy_value(&data), vec![]).unwrap();
    assert_eq!(res, JsonValue::Array(vec![data]));
}

#[test]
fn query_wildcard_selects_every_element() {
    let res = run(".friends[].name", user()).unwrap();
    assert_eq!(
        res,
        JsonValue::Array(vec![text("Colon Salazar"), text("French Mcneil"), text("Carol Martin")])
    );
    let res = run(".friends[]", user()).unwrap();
    assert_eq!(
        res,
        JsonValue::Array(vec![
            friend("0", "Colon Salazar"),
            friend("1", "French Mcneil"),
            friend("2", "Carol Martin"),
        ])
    );
}

#[test]
fn query_ranges_over_positions() {
    let data = JsonValue::Array((0..10).map(|i| num(&i.to_string())).collect());
    let res = run("[0-2,6]", copy_value(&data)).unwrap();
    assert_eq!(res, JsonValue::Array(vec![num("0"), num("1"), num("2"), num("6")]));
    let res = run("[7-]", copy_value(&data)).unwrap();
    assert_eq!(res, JsonValue::Array(vec![num("7"), num("8"), num("9")]));
    let res = run("[-1, 9]", copy_value(&data)).unwrap();
    assert_eq!(res, JsonValue::Array(vec![num("0"), num("1"), num("9")]));
    let res = run("[5-3]", copy_value(&data)).unwrap();
    assert_eq!(res, JsonValue::Array(vec![]));
    let res = run("[+4]", data).unwrap();
    assert_eq!(res, JsonValue::Array(vec![num("4")]));
}

#[test]
fn query_map_by_names() {
    let data = obj(vec![("key1", num("1")), ("key2", num("2")), ("key3", num("3")), ("10", num("4"))]);
    let res = run("[key1, key3]", copy_value(&data)).unwrap();
    assert_eq!(res, JsonValue::Array(vec![num("1"), num("3")]));
    let res = run("[8-12]", copy_value(&data)).unwrap();
    assert_eq!(res, JsonValue::Array(vec![num("4")]));
    let res = run(".key2", data).unwrap();
    assert_eq!(res, JsonValue::Array(vec![num("2")]));
}

#[test]
fn query_array_by_number_name() {
    let res = run(".friends.2.id", user()).unwrap();
    assert_eq!(res, JsonValue::Array(vec![num("2")]));
}

#[test]
fn query_on_scalar_selects_nothing() {
    let res = run(".name.first", user()).unwrap();
    assert_eq!(res, JsonValue::Array(vec![]));
}

#[test]
fn query_missing_member_is_an_error() {
    let res = run(".metadata.missing", user());
    assert_eq!(res, Err(QueryError::CannotUseIdentifierAsArrayKeyIndex("missing".to_string())));
    let res = run(".friends.first", user());
    assert_eq!(res, Err(QueryError::CannotUseIdentifierAsArrayKeyIndex("first".to_string())));
}

#[test]
fn query_out_of_range_index_is_unsupported() {
    let lex = compile(".friends.7").unwrap();
    assert!(query_unsupported(&user(), &lex));
    let lex = vec![LexOperator::Pipe(vec![])];
    assert!(query_unsupported(&user(), &lex));
    let lex = compile(".friends.1").unwrap();
    assert!(!query_unsupported(&user(), &lex));
}

#[test]
fn query_str_compiles_then_runs() {
    assert_eq!(
        query_str(user(), ".friends[0].name").unwrap(),
        JsonValue::Array(vec![text("Colon Salazar")])
    );
    assert_eq!(
        query_str(user(), ".friends[0"),
        Err(QueryError::UncontrolledError("Gulp".to_string()))
    );
}

#[test]
fn match_slice_to_key_cases() {
    let g = GenericObjectIndex::Slice(vec![Slicer::Index(3), Slicer::Ident("x".to_string())]);
    assert!(match_slice_to_key("3", &g));
    assert!(match_slice_to_key("03", &g));
    assert!(match_slice_to_key("x", &g));
    assert!(!match_slice_to_key("4", &g));
    assert!(!match_slice_to_key("y", &g));
    assert!(match_slice_to_key("anything", &GenericObjectIndex::Wildcard));
    let g = GenericObjectIndex::Slice(vec![Slicer::Ident("05".to_string())]);
    assert!(match_slice_to_key("5", &g));
}

#[test]
fn key_match_map_cases() {
    assert!(key_match_map(&"a".to_string(), &ident("a")));
    assert!(!key_match_map(&"b".to_string(), &ident("a")));
    let g = LexOperator::Generic(GenericObjectIndex::Slice(vec![Slicer::Slice(1, 3)]));
    assert!(key_match_map(&"2".to_string(), &g));
    assert!(!key_match_map(&"4".to_string(), &g));
}

#[test]
fn parse_and_print_usize() {
    assert_eq!(parse_usize("123"), Some(123));
    assert_eq!(parse_usize("+7"), Some(7));
    assert_eq!(parse_usize(""), None);
    assert_eq!(parse_usize("+"), None);
    assert_eq!(parse_usize("-1"), None);
    assert_eq!(parse_usize("12a"), None);
    assert_eq!(parse_usize("99999999999999999999999"), None);
    assert_eq!(parse_usize(&usize::MAX.to_string()), Some(usize::MAX));
    assert_eq!(usize_to_decimal(0), "0");
    assert_eq!(usize_to_decimal(1024), "1024");
    assert_eq!(usize_to_decimal(usize::MAX), usize::MAX.to_string());
}

#[test]
fn com_type_non_numbers() {
    let a = ComType::from("abc");
    let b = ComType::from("abc".to_string());
    assert!(!(a == b));
    assert_eq!(a.partial_cmp(&b), None);
    assert!(ComType::from("07") == ComType::from(&7usize));
    assert!(ComType::from(&3usize) <= ComType::from("3"));
}

#[test]
fn query_error_from() {
    let pe = "x".parse::<usize>().unwrap_err();
    let e: QueryError = LexerError::FailedToParseInt(pe.clone()).into();
    assert_eq!(e, QueryError::LexicalError(LexerError::FailedToParseInt(pe)));
    let e: QueryError = "oops".to_string().into();
    assert_eq!(e, QueryError::UncontrolledError("oops".to_string()));
}

#[test]
fn compile_of_two_queries_is_their_steps_in_turn() {
    let mut both = compile(".a[1]x").unwrap();
    both.extend(compile(".b[2-3]").unwrap());
    assert_eq!(compile(".a[1]x.b[2-3]").unwrap(), both);
    let mut both = compile("[]").unwrap();
    both.extend(compile("[k]").unwrap());
    assert_eq!(compile("[][k]").unwrap(), both);
}

#[test]
fn query_steps_apply_one_after_another() {
    let first = run(".friends[0,2]", user()).unwrap();
    let mut each = Vec::new();
    if let JsonValue::Array(values) = first {
        for v in values {
            if let JsonValue::Array(found) = run(".name", v).unwrap() {
                each.extend(found);
            }
        }
    }
    assert_eq!(run(".friends[0,2].name", user()).unwrap(), JsonValue::Array(each));
    assert_eq!(
        run(".friends[0,2].name", user()).unwrap(),
        JsonValue::Array(vec![text("Colon Salazar"), text("Carol Martin")])
    );
}

#[test]
fn compile_makes_no_pipe() {
    for q in [".a[1].b", "[]", "x.y[1-2, z]", ""] {
        let ops = compile(q).unwrap();
        assert!(ops.iter().all(|op| !matches!(op, LexOperator::Pipe(_))));
    }
}

#[test]
fn com_type_keeps_the_key_text() {
    assert_eq!(ComType::from(42).string, Some("42".to_string()));
    assert_eq!(ComType::from(&7usize).string, Some("7".to_string()));
    let mut m = 9usize;
    let c = ComType::from(&mut m);
    assert_eq!((c.usize, c.string), (Some(9), Some("9".to_string())));
    let c = ComType::from("+12");
    assert_eq!((c.usize, c.string), (Some(12), Some("+12".to_string())));
    let c = ComType::from("x".to_string());
    assert_eq!((c.usize, c.string), (None, Some("x".to_string())));
}

#[test]
fn query_error_from_str() {
    let e: QueryError = "Gulp".into();
    assert_eq!(e, QueryError::UncontrolledError("Gulp".to_string()));
}

#[test]
fn query_processor_appends_and_keeps_on_failure() {
    let lex = compile(".friends[].name").unwrap();
    let mut results = vec![text("kept")];
    assert_eq!(query_processor(&user(), &lex, 0, &mut results), Ok(()));
    assert_eq!(
        results,
        vec![text("kept"), text("Colon Salazar"), text("French Mcneil"), text("Carol Martin")]
    );
    let data = JsonValue::Array(vec![obj(vec![("a", num("1"))]), obj(vec![("b", num("2"))])]);
    let lex = compile("[].a").unwrap();
    let mut results = vec![text("kept")];
    assert_eq!(
        query_processor(&data, &lex, 0, &mut results),
        Err(QueryFault::Failed(QueryError::CannotUseIdentifierAsArrayKeyIndex("a".to_string())))
    );
    assert_eq!(results, vec![text("kept"), num("1")]);
    let lex = compile(".friends.9").unwrap();
    let mut results = vec![];
    assert_eq!(query_processor(&user(), &lex, 0, &mut results), Err(QueryFault::Unsupported));
    assert_eq!(results, vec![]);
}

#[test]
fn index_items_select_independently() {
    let a = vec![Slicer::Index(1)];
    let b = vec![Slicer::Ident("k".to_string())];
    let both = GenericObjectIndex::Slice(vec![Slicer::Index(1), Slicer::Ident("k".to_string())]);
    for key in ["1", "k", "2"] {
        assert_eq!(
            match_slice_to_key(key, &both),
            match_slice_to_key(key, &GenericObjectIndex::Slice(a.iter().map(|_| Slicer::Index(1)).collect()))
                || match_slice_to_key(key, &GenericObjectIndex::Slice(b.iter().map(|_| Slicer::Ident("k".to_string())).collect()))
        );
    }
    assert!(!match_slice_to_key("1", &GenericObjectIndex::Slice(vec![])));
}

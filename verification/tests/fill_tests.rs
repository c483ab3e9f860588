use template_filling::fill;
use template_filling::grammar::ParseError;
use template_filling::value::DataValue;

fn num(n: &str) -> DataValue {
    DataValue::Number(n.to_owned())
}

fn st(s: &str) -> DataValue {
    DataValue::String(s.to_owned())
}

fn obj(fields: Vec<(&str, DataValue)>) -> DataValue {
    let mut out: Vec<(String, DataValue)> = Vec::new();
    for (k, v) in fields {
        out.push((k.to_owned(), v));
    }
    DataValue::Object(out)
}

fn arrays_123() -> DataValue {
    obj(vec![("arrays", DataValue::Array(vec![num("1"), num("2"), num("3")]))])
}

#[test]
fn test_line_feed_n() {
    assert_eq!(fill("\n123", None).unwrap(), "\n123");
    assert_eq!(fill("\n\n123", None).unwrap(), "\n\n123");
    assert_eq!(fill("123\n", None).unwrap(), "123\n");
    assert_eq!(fill("123\n\n", None).unwrap(), "123\n\n");
    assert_eq!(fill("123\n123", None).unwrap(), "123\n123");
    assert_eq!(fill("123\n123\n123", None).unwrap(), "123\n123\n123");
}

#[test]
fn test_line_feed_rn() {
    assert_eq!(fill("\r\n123", None).unwrap(), "\r\n123");
    assert_eq!(fill("\r\n\r\n123", None).unwrap(), "\r\n\r\n123");
    assert_eq!(fill("123\r\n", None).unwrap(), "123\r\n");
    assert_eq!(fill("123\r\n\r\n", None).unwrap(), "123\r\n\r\n");
    assert_eq!(fill("123\r\n123", None).unwrap(), "123\r\n123");
    assert_eq!(fill("123\r\n123\r\n123", None).unwrap(), "123\r\n123\r\n123");
}

#[test]
fn test_line_feed_mix() {
    assert_eq!(fill("\r\n\n123", None).unwrap(), "\r\n\n123");
    assert_eq!(fill("123\r\n\n", None).unwrap(), "123\r\n\n");
    assert_eq!(fill("123\n\r\n", None).unwrap(), "123\n\r\n");
    assert_eq!(fill("123\r\n123\n", None).unwrap(), "123\r\n123\n");
}

#[test]
fn text_tests_test() {
    assert_eq!(fill("abc", None).unwrap(), "abc");
    assert_eq!(fill("1\n12\n123", None).unwrap(), "1\n12\n123");
    assert_eq!(fill("a\nab\nabc", None).unwrap(), "a\nab\nabc");
    assert_eq!(fill("一\n一二\n一二三", None).unwrap(), "一\n一二\n一二三");
    assert_eq!(fill("~\n~!\n~!@", None).unwrap(), "~\n~!\n~!@");
    assert_eq!(fill("\\\n\\r\n\\r\\", None).unwrap(), "\\\n\\r\n\\r\\");
}

#[test]
fn token_env_tests_test_space() {
    assert_eq!(fill(r#"{$aaa=1$}{% if aaa == 1 %}Pass{% endif %}"#, None).unwrap(), "Pass");
    assert_eq!(fill(r#"{$ aaa=1$}{% if aaa == 1 %}Pass{% endif %}"#, None).unwrap(), "Pass");
    assert_eq!(fill(r#"{$aaa=1 $}{% if aaa == 1 %}Pass{% endif %}"#, None).unwrap(), "Pass");
    assert_eq!(fill(r#"{$ aaa=1 $}{% if aaa == 1 %}Pass{% endif %}"#, None).unwrap(), "Pass");
    assert_eq!(fill(r#"{$aaa =1$}{% if aaa == 1 %}Pass{% endif %}"#, None).unwrap(), "Pass");
    assert_eq!(fill(r#"{$aaa= 1$}{% if aaa == 1 %}Pass{% endif %}"#, None).unwrap(), "Pass");
    assert_eq!(fill(r#"{$aaa = 1$}{% if aaa == 1 %}Pass{% endif %}"#, None).unwrap(), "Pass");
    assert_eq!(fill(r#"{$ aaa = 1 $}{% if aaa == 1 %}Pass{% endif %}"#, None).unwrap(), "Pass");
}

#[test]
fn test_set_env() {
    let data = obj(vec![
        ("attr_bool", DataValue::Bool(false)),
        ("attr_num", num("0")),
        ("attr_num_2", num("222")),
        ("attr_str", st("")),
        ("attr_unicode", st("非中文")),
    ]);
    assert_eq!(
        fill(r#"{$ attr_bool = true $}{% if attr_bool == true %}Pass{% endif %}"#, Some(&data))
            .unwrap(),
        "Pass"
    );
    assert_eq!(
        fill(r#"{$ attr_num = 1 $}{% if attr_num == 1 %}Pass{% endif %}"#, Some(&data)).unwrap(),
        "Pass"
    );
    assert_eq!(
        fill(r#"{$ attr_str = "123" $}{% if attr_str == "123" %}Pass{% endif %}"#, Some(&data))
            .unwrap(),
        "Pass"
    );
    assert_eq!(
        fill(
            r#"{$ attr_unicode = "中文" $}{% if attr_unicode == "中文" %}Pass{% endif %}"#,
            Some(&data)
        )
        .unwrap(),
        "Pass"
    );
    assert_eq!(
        fill(
            r#"{$ attr_num = attr_num_2 $}{% if attr_num == 222 %}Pass{% endif %}"#,
            Some(&data)
        )
        .unwrap(),
        "Pass"
    );
}

#[test]
fn token_tag_for_tests_test_space() {
    let data = arrays_123();
    assert_eq!(fill(r#"{%for i in arrays%}{{i}}{%endfor%}"#, Some(&data)).unwrap(), "123");
    assert_eq!(fill(r#"{% for i in arrays%}{{i}}{%endfor%}"#, Some(&data)).unwrap(), "123");
    assert_eq!(fill(r#"{%for i in arrays %}{{i}}{%endfor%}"#, Some(&data)).unwrap(), "123");
    assert_eq!(fill(r#"{% for i in arrays %}{{i}}{%endfor%}"#, Some(&data)).unwrap(), "123");
    assert_eq!(fill(r#"{%for i in arrays%}{{i}}{% endfor %}"#, Some(&data)).unwrap(), "123");
    assert_eq!(fill(r#"{%for i in arrays   %}{{i}}{%endfor%}"#, Some(&data)).unwrap(), "123");
    assert_eq!(fill(r#"{%   for i in arrays%}{{i}}{%endfor%}"#, Some(&data)).unwrap(), "123");
    assert_eq!(fill(r#"{%  for  i  in  arrays   %}{{i}}{%endfor%}"#, Some(&data)).unwrap(), "123");
}

#[test]
fn test_join_with() {
    let data = arrays_123();
    assert_eq!(
        fill(r#"{% for i in arrays %}{$ join_with = , $}{{ i }}{% endfor %}"#, Some(&data))
            .unwrap(),
        "1,2,3"
    );
    assert_eq!(
        fill(
            "{% for i in arrays %}{$ join_with = , $}\n{{ i }}\n{% endfor %}",
            Some(&data)
        )
        .unwrap(),
        "1,2,3"
    );
    assert_eq!(
        fill(
            "{% for i in arrays %}\n{$ join_with = , $}\n{{ i }}\n{% endfor %}",
            Some(&data)
        )
        .unwrap(),
        "1,2,3"
    );
    assert_eq!(
        fill(
            "{% for i in arrays %}\n    {$ join_with = , $}\n    {{ i }}\n{% endfor %}",
            Some(&data)
        )
        .unwrap(),
        "1,2,3"
    );
    assert_eq!(
        fill(r#"{% for i in arrays %}{$ join_with = \n $}{{ i }}{% endfor %}"#, Some(&data))
            .unwrap(),
        "1\n2\n3"
    );
    assert_eq!(
        fill(
            "{% for i in arrays %}\n    {$ join_with = \\n $}\n    {{ i }}\n{% endfor %}",
            Some(&data)
        )
        .unwrap(),
        "1\n2\n3"
    );
    assert_eq!(
        fill(r#"{% for i in arrays %}{$ join_with = 分隔 $}{{ i }}{% endfor %}"#, Some(&data))
            .unwrap(),
        "1分隔2分隔3"
    );
}

#[test]
fn token_tag_if_tests_test_space() {
    assert_eq!(fill(r#"{%if 1 == 1%}Pass{%endif%}"#, None).unwrap(), "Pass");
    assert_eq!(fill(r#"{% if 1 == 1%}Pass{%endif%}"#, None).unwrap(), "Pass");
    assert_eq!(fill(r#"{%if 1 == 1 %}Pass{%endif%}"#, None).unwrap(), "Pass");
    assert_eq!(fill(r#"{%if 1 == 1%}Pass{% endif%}"#, None).unwrap(), "Pass");
    assert_eq!(fill(r#"{%if 1 == 1%}Pass{%endif %}"#, None).unwrap(), "Pass");
    assert_eq!(fill(r#"{% if 1 == 1 %}Pass{%endif%}"#, None).unwrap(), "Pass");
    assert_eq!(fill(r#"{%if 1 == 1%}Pass{% endif %}"#, None).unwrap(), "Pass");
    assert_eq!(fill(r#"{% if 1 == 1 %}Pass{% endif %}"#, None).unwrap(), "Pass");
}

#[test]
fn test_equal() {
    assert_eq!(fill(r#"{% if true %}Pass{% endif %}"#, None).unwrap(), "Pass");
    assert_eq!(fill(r#"{% if true == true %}Pass{% endif %}"#, None).unwrap(), "Pass");
    assert_eq!(fill(r#"{% if false == false %}Pass{% endif %}"#, None).unwrap(), "Pass");
    assert_eq!(fill(r#"{% if 1 == 1 %}Pass{% endif %}"#, None).unwrap(), "Pass");
    assert_eq!(fill(r#"{% if 123 == 123 %}Pass{% endif %}"#, None).unwrap(), "Pass");
    assert_eq!(fill(r#"{% if "" == "" %}Pass{% endif %}"#, None).unwrap(), "Pass");
    assert_eq!(fill(r#"{% if "1" == "1" %}Pass{% endif %}"#, None).unwrap(), "Pass");
    assert_eq!(fill(r#"{% if "a" == "a" %}Pass{% endif %}"#, None).unwrap(), "Pass");
    assert_eq!(fill(r#"{% if "abc" == "abc" %}Pass{% endif %}"#, None).unwrap(), "Pass");
    assert_eq!(fill(r#"{% if "中文" == "中文" %}Pass{% endif %}"#, None).unwrap(), "Pass");
    let val = obj(vec![
        ("eq_l_bool", DataValue::Bool(true)),
        ("eq_l_num", num("123")),
        ("eq_l_str", st("abc")),
        ("eq_l_unicode", st("中文")),
        ("eq_r_bool", DataValue::Bool(true)),
        ("eq_r_num", num("123")),
        ("eq_r_str", st("abc")),
        ("eq_r_unicode", st("中文")),
    ]);
    assert_eq!(fill(r#"{% if $eq_l_bool %}Pass{% endif %}"#, Some(&val)).unwrap(), "Pass");
    assert_eq!(
        fill(r#"{% if $eq_l_bool == $eq_r_bool %}Pass{% endif %}"#, Some(&val)).unwrap(),
        "Pass"
    );
    assert_eq!(
        fill(r#"{% if $eq_l_num == $eq_r_num %}Pass{% endif %}"#, Some(&val)).unwrap(),
        "Pass"
    );
    assert_eq!(
        fill(r#"{% if $eq_l_str == $eq_r_str %}Pass{% endif %}"#, Some(&val)).unwrap(),
        "Pass"
    );
    assert_eq!(
        fill(r#"{% if $eq_l_unicode == $eq_r_unicode %}Pass{% endif %}"#, Some(&val)).unwrap(),
        "Pass"
    );
}

#[test]
fn test_unequal() {
    assert_eq!(fill(r#"{% if true != true %}Pass{% endif %}"#, None).unwrap(), "");
    assert_eq!(fill(r#"{% if false != false %}Pass{% endif %}"#, None).unwrap(), "");
    assert_eq!(fill(r#"{% if 1 != 1 %}Pass{% endif %}"#, None).unwrap(), "");
    assert_eq!(fill(r#"{% if 123 != 123 %}Pass{% endif %}"#, None).unwrap(), "");
    assert_eq!(fill(r#"{% if "" != "" %}Pass{% endif %}"#, None).unwrap(), "");
    assert_eq!(fill(r#"{% if "1" != "1" %}Pass{% endif %}"#, None).unwrap(), "");
    assert_eq!(fill(r#"{% if "a" != "a" %}Pass{% endif %}"#, None).unwrap(), "");
    assert_eq!(fill(r#"{% if "abc" != "abc" %}Pass{% endif %}"#, None).unwrap(), "");
    assert_eq!(fill(r#"{% if "中文" != "中文" %}Pass{% endif %}"#, None).unwrap(), "");
    let val = obj(vec![
        ("eq_l_bool", DataValue::Bool(true)),
        ("eq_l_num", num("123")),
        ("eq_l_str", st("abc")),
        ("eq_l_unicode", st("中文")),
        ("eq_r_bool", DataValue::Bool(true)),
        ("eq_r_num", num("123")),
        ("eq_r_str", st("abc")),
        ("eq_r_unicode", st("中文")),
    ]);
    assert_eq!(fill(r#"{% if $eq_l_bool != $eq_r_bool %}Pass{% endif %}"#, Some(&val)).unwrap(), "");
    assert_eq!(fill(r#"{% if $eq_l_num != $eq_r_num %}Pass{% endif %}"#, Some(&val)).unwrap(), "");
    assert_eq!(fill(r#"{% if $eq_l_str != $eq_r_str %}Pass{% endif %}"#, Some(&val)).unwrap(), "");
    assert_eq!(
        fill(r#"{% if $eq_l_unicode != $eq_r_unicode %}Pass{% endif %}"#, Some(&val)).unwrap(),
        ""
    );
}

#[test]
fn test_placeholder_round_trip() {
    let data = obj(vec![("x", st("v"))]);
    assert_eq!(fill("{{x}}", Some(&data)).unwrap(), "v");
    let empty = obj(vec![]);
    assert_eq!(fill("{{x}}", Some(&empty)).unwrap(), "{{x: Not found}}");
    assert_eq!(fill("{{x}}", None).unwrap(), "{{x: Not found}}");
    assert_eq!(fill("{{ x }}", Some(&data)).unwrap(), "v");
}

#[test]
fn test_for_cardinality_and_index() {
    let data = arrays_123();
    assert_eq!(fill("{%for i in arrays%}{{i}}{%endfor%}", Some(&data)).unwrap(), "123");
    assert_eq!(
        fill("{%for i in arrays%}{{$index}}:{{i}};{%endfor%}", Some(&data)).unwrap(),
        "0:1;1:2;2:3;"
    );
    assert_eq!(
        fill("{%for i in arrays%}{{$max}}{%endfor%}", Some(&data)).unwrap(),
        "222"
    );
    let empty_arr = obj(vec![("arrays", DataValue::Array(vec![]))]);
    assert_eq!(fill("{%for i in arrays%}{{i}}{%endfor%}", Some(&empty_arr)).unwrap(), "");
    assert_eq!(fill("{%for i in missing%}{{i}}{%endfor%}", None).unwrap(), "");
}

#[test]
fn test_dotted_path() {
    let data = obj(vec![("a", obj(vec![("b", st("deep"))]))]);
    assert_eq!(fill("{{a.b}}", Some(&data)).unwrap(), "deep");
    assert_eq!(fill("{{a.c}}", Some(&data)).unwrap(), "{{a.c: Not found}}");
}

#[test]
fn test_silent_empty_block_line() {
    let data = obj(vec![]);
    assert_eq!(
        fill("a\n{% if 1 == 2 %}x{% endif %}\nb", Some(&data)).unwrap(),
        "a\nb"
    );
    assert_eq!(
        fill("a\n{% for i in missing %}x{% endfor %}\nb", Some(&data)).unwrap(),
        "a\nb"
    );
}

#[test]
fn test_indentation_rebase() {
    let data = arrays_123();
    assert_eq!(
        fill("  {% for i in arrays %}\n      {{ i }}\n  {% endfor %}", Some(&data)).unwrap(),
        "  1  2  3"
    );
    assert_eq!(
        fill(
            "  {% for i in arrays %}\n{$ indent_base = raw $}\n      {{ i }}\n  {% endfor %}",
            Some(&data)
        )
        .unwrap(),
        "      1      2      3"
    );
}

#[test]
fn test_raw_block() {
    assert_eq!(fill("a{# {{x}} #}b", None).unwrap(), "a {{x}} b");
}

#[test]
fn test_parse_errors() {
    assert!(matches!(fill("ab{{x", None), Err(ParseError::UnbalancedDelimiter(_))));
    assert!(matches!(fill("ab{$ a $}cd", None), Err(ParseError::EnvMissingEquals(_))));
    assert!(matches!(fill("ab{% endif %}cd", None), Err(ParseError::MissingHeadTag(_))));
    assert!(matches!(fill("{% for i in a %}x", None), Err(ParseError::MissingEndTag)));
    assert!(matches!(fill("{% nope %}x{% endif %}", None), Err(ParseError::UnsupportedTag)));
    assert!(matches!(
        fill("{% for i in a %}x{% endif %}", None),
        Err(ParseError::MismatchedEndTag(_))
    ));
    assert!(matches!(fill("{% for i %}x{% endfor %}", None), Err(ParseError::IllegalForExpression)));
    assert!(matches!(fill("{% if %}x{% endif %}", None), Err(ParseError::UnsupportedTag)));
    assert!(matches!(
        fill("{% if 1 == %}x{% endif %}", None),
        Err(ParseError::IllegalIfExpression)
    ));
    assert!(matches!(
        fill("{% if ?? == 1 %}x{% endif %}", None),
        Err(ParseError::InvalidExpression)
    ));
}

#[test]
fn test_now_variable() {
    let out = fill("{{$now}}", None).unwrap();
    assert_eq!(out.chars().count(), 19);
    assert!(!out.contains("Not found"));
}

#[test]
fn test_if_missing_operands() {
    assert_eq!(fill("{% if ghost_key == 1 %}Pass{% endif %}", None).unwrap(), "");
    assert_eq!(fill("{% if ghost_key != 1 %}Pass{% endif %}", None).unwrap(), "Pass");
    assert_eq!(fill("{% if ghost_key != other_ghost %}Pass{% endif %}", None).unwrap(), "Pass");
}

use minitemplate::{render, Bindings, Data, RenderError};

fn sample_bindings() -> Bindings {
    let mut data = Bindings::new();
    data.insert("test", Data::Boolean(true));
    data.insert("false_test", Data::Boolean(false));
    data
}

#[test]
fn test_repeat() {
    let input = "{% repeat 4 times %}hello{% endrepeat %}".to_string();
    let mut data = Bindings::new();
    data.insert("hello", Data::Text("Hello world!".to_string()));

    assert_eq!(render(input, &data), Ok("hellohellohellohello".to_string()));
}

#[test]
fn test_if() {
    let input_if = "{% if test %}hello world!{% endif %}".to_string();
    let data = sample_bindings();

    assert_eq!(render(input_if, &data), Ok("hello world!".to_string()));
}

#[test]
fn test_else() {
    let input_else = "{% if false_test %}Magic{% else %}Unicorn{% endif %}".to_string();
    let data = sample_bindings();

    assert_eq!(render(input_else, &data), Ok("Unicorn".to_string()));
}

#[test]
fn test_nokey() {
    let input_nokey = "{% if badkey %}amazing{% endif %}".to_string();
    let data = sample_bindings();

    assert_eq!(
        render(input_nokey, &data),
        Err(RenderError::UnknownKey("badkey".to_string()))
    );
}

#[test]
fn substitution_scenario() {
    let mut data = Bindings::new();
    data.insert("hello", Data::Text("Hello world!".to_string()));
    assert_eq!(render("{{ hello }}".to_string(), &data), Ok("Hello world!".to_string()));
}

#[test]
fn html_page_substitution() {
    let mut data = Bindings::new();
    data.insert("hello", Data::Text("Hello world!".to_string()));
    let page = "<html>\n<body>\n    <h1>{{ hello }}</h1>\n</body>\n</html>\n".to_string();
    assert_eq!(
        render(page, &data),
        Ok("<html>\n<body>\n    <h1>Hello world!</h1>\n</body>\n</html>\n".to_string())
    );
}

#[test]
fn plain_template_is_unchanged() {
    let data = sample_bindings();
    let text = "no directives here: 100% {plain} }} text\n";
    assert_eq!(render(text.to_string(), &data), Ok(text.to_string()));
    assert_eq!(render(String::new(), &data), Ok(String::new()));
}

#[test]
fn text_is_substituted_without_escaping() {
    let mut data = Bindings::new();
    data.insert("v", Data::Text("<b>&amp; \"q\" ünïcode</b>".to_string()));
    assert_eq!(
        render("{{ v }}".to_string(), &data),
        Ok("<b>&amp; \"q\" ünïcode</b>".to_string())
    );
}

#[test]
fn substitution_key_is_trimmed() {
    let mut data = Bindings::new();
    data.insert("name", Data::Text("Ada".to_string()));
    assert_eq!(
        render("Hi {{name}} and {{   name\t}}!".to_string(), &data),
        Ok("Hi Ada and Ada!".to_string())
    );
}

#[test]
fn numbers_and_booleans_render_canonically() {
    let mut data = Bindings::new();
    data.insert("n", Data::Number(-42));
    data.insert("z", Data::Number(0));
    data.insert("min", Data::Number(i32::MIN));
    data.insert("max", Data::Number(i32::MAX));
    data.insert("t", Data::Boolean(true));
    data.insert("f", Data::Boolean(false));
    assert_eq!(
        render("{{n}} {{z}} {{min}} {{max}} {{t}} {{f}}".to_string(), &data),
        Ok("-42 0 -2147483648 2147483647 true false".to_string())
    );
}

#[test]
fn to_text_gives_canonical_forms() {
    assert_eq!(Data::Number(1234).to_text(), "1234");
    assert_eq!(Data::Number(-7).to_text(), "-7");
    assert_eq!(Data::Boolean(true).to_text(), "true");
    assert_eq!(Data::Boolean(false).to_text(), "false");
    assert_eq!(Data::Text(" as is ".to_string()).to_text(), " as is ");
}

#[test]
fn unbound_substitution_is_unknown_key() {
    let data = sample_bindings();
    assert_eq!(
        render("a {{ missing }} b".to_string(), &data),
        Err(RenderError::UnknownKey("missing".to_string()))
    );
}

#[test]
fn first_unbound_key_is_reported() {
    let mut data = Bindings::new();
    data.insert("a", Data::Number(1));
    assert_eq!(
        render("{{ a }}{{ b }}{{ c }}".to_string(), &data),
        Err(RenderError::UnknownKey("b".to_string()))
    );
}

#[test]
fn repeat_zero_times_is_empty() {
    let data = Bindings::new();
    assert_eq!(
        render("[{% repeat 0 times %}x{% endrepeat %}]".to_string(), &data),
        Ok("[]".to_string())
    );
}

#[test]
fn repeat_body_and_count_are_trimmed() {
    let data = Bindings::new();
    assert_eq!(
        render("{% repeat  3  times %}  ab \n{% endrepeat %}".to_string(), &data),
        Ok("ababab".to_string())
    );
}

#[test]
fn repeat_runs_after_substitution() {
    let mut data = Bindings::new();
    data.insert("w", Data::Text("hey".to_string()));
    assert_eq!(
        render("{% repeat 2 times %}{{ w }}-{% endrepeat %}".to_string(), &data),
        Ok("hey-hey-".to_string())
    );
}

#[test]
fn nested_repeat_is_not_expanded() {
    let data = Bindings::new();
    assert_eq!(
        render(
            "{% repeat 2 times %}a{% repeat 3 times %}b{% endrepeat %}c{% endrepeat %}".to_string(),
            &data
        ),
        Ok("a{% repeat 3 times %}ba{% repeat 3 times %}bc{% endrepeat %}".to_string())
    );
}

#[test]
fn repeat_count_that_is_not_a_number() {
    let data = Bindings::new();
    assert_eq!(
        render("{% repeat x times %}a{% endrepeat %}".to_string(), &data),
        Err(RenderError::InvalidRepeatCount("x".to_string()))
    );
    assert_eq!(
        render("{% repeat -1 times %}a{% endrepeat %}".to_string(), &data),
        Err(RenderError::InvalidRepeatCount("-1".to_string()))
    );
    assert_eq!(
        render("{% repeat  times %}a{% endrepeat %}".to_string(), &data),
        Err(RenderError::InvalidRepeatCount(String::new()))
    );
}

#[test]
fn repeat_count_too_large() {
    let data = Bindings::new();
    assert_eq!(
        render(
            "{% repeat 99999999999999999999999 times %}a{% endrepeat %}".to_string(),
            &data
        ),
        Err(RenderError::InvalidRepeatCount("99999999999999999999999".to_string()))
    );
}

#[test]
fn unterminated_repeat_is_left_as_text() {
    let data = Bindings::new();
    let text = "{% repeat 2 times %}a";
    assert_eq!(render(text.to_string(), &data), Ok(text.to_string()));
}

#[test]
fn if_without_else_false_is_empty() {
    let data = sample_bindings();
    assert_eq!(
        render("<{% if false_test %}shown{% endif %}>".to_string(), &data),
        Ok("<>".to_string())
    );
}

#[test]
fn if_else_true_takes_first_branch() {
    let data = sample_bindings();
    assert_eq!(
        render("{% if test %} yes {% else %} no {% endif %}".to_string(), &data),
        Ok("yes".to_string())
    );
}

#[test]
fn if_on_non_boolean_is_type_mismatch() {
    let mut data = Bindings::new();
    data.insert("n", Data::Number(3));
    assert_eq!(
        render("{% if n %}a{% endif %}".to_string(), &data),
        Err(RenderError::TypeMismatch("n".to_string()))
    );
}

#[test]
fn several_conditionals_in_one_template() {
    let data = sample_bindings();
    assert_eq!(
        render(
            "A{% if test %}1{% endif %}B{% if false_test %}2{% else %}3{% endif %}C".to_string(),
            &data
        ),
        Ok("A1B3C".to_string())
    );
}

#[test]
fn binding_again_replaces_value() {
    let mut data = Bindings::new();
    data.insert("k", Data::Text("old".to_string()));
    data.insert("k", Data::Text("new".to_string()));
    assert_eq!(render("{{ k }}".to_string(), &data), Ok("new".to_string()));
}

#[test]
fn bindings_are_reusable() {
    let data = sample_bindings();
    assert_eq!(render("{{ test }}".to_string(), &data), Ok("true".to_string()));
    assert_eq!(render("{{ false_test }}".to_string(), &data), Ok("false".to_string()));
}

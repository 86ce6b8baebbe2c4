use solid_gpui::type_validation::has_unbounded_type;

#[test]
fn property_names_and_template_text_are_not_value_types() {
    for declaration in [
        "type State = { any /* documentation */ ?: string; readonly bigint: number; }",
        "type State = { any: { bigint: 'any' }; label: `any bigint`; }",
        r"type State = `escaped \` any \${bigint}`;",
        "type State = `any ${'bigint' | `any ${string}`} bigint`;",
        "type State = { value: `text ${ { any: string } }`; bigint: number; }",
    ] {
        assert!(!has_unbounded_type(declaration), "{declaration}");
    }
}

#[test]
fn template_interpolations_and_nested_types_remain_validated() {
    for declaration in [
        "type State = `prefix ${any}`;",
        "type State = `prefix ${Array<bigint>}`;",
        "type State = `outer ${`inner ${any}`} tail`;",
        "type State = `prefix ${ { any: bigint } }`;",
        "type State = `prefix ${string}` | any;",
        "type State = `prefix ${'/*'} ${bigint}`;",
        "type State = { values: [string, any]; }",
        "type State = { values: Array<string | { nested: bigint[] }>; }",
        "type State<T> = T extends string ? any /* note */ : number;",
        "type State = { any: any; }",
    ] {
        assert!(has_unbounded_type(declaration), "{declaration}");
    }
}

#[test]
fn documentation_and_serializable_literal_values_are_not_unbounded_types() {
    assert!(!has_unbounded_type(
        "/** The pending request, if any. */ type State = { value: string; }"
    ));
    assert!(!has_unbounded_type(
        "type State = { any?: string; bigint: boolean; label: 'any' | \"bigint\"; }"
    ));
    assert!(!has_unbounded_type(
        "// any is forbidden as a type\ntype State = string;"
    ));
}

#[test]
fn comment_or_literal_delimiters_cannot_hide_an_unbounded_field() {
    assert!(has_unbounded_type(
        "type State = { label: '/*'; value: bigint; }"
    ));
    assert!(has_unbounded_type(
        "type State = { label: '//'; value: any; }"
    ));
    assert!(has_unbounded_type(
        "type State = { label: '\\'/*'; value: any; }"
    ));
    assert!(has_unbounded_type(
        "/* any */ type State = { values: Array<bigint>; }"
    ));
    assert!(has_unbounded_type(
        "type State = { value: any\u{2003}| null; }"
    ));
    assert!(has_unbounded_type(
        "type State<T> = T extends string ? any : never;"
    ));
    assert!(has_unbounded_type(
        "type State<T> = T extends string ? bigint : number;"
    ));
}

#[test]
fn names_and_bounded_types_keep_their_meaning() {
    assert!(!has_unbounded_type(
        "type Company = { many: number; anything: unknown; }"
    ));
    assert!(has_unbounded_type("bigint"));
    assert!(has_unbounded_type("any | null"));
}

#[test]
fn unterminated_comments_and_literals_end_the_scan() {
    assert!(!has_unbounded_type("type State = /* any"));
    assert!(!has_unbounded_type("type State = 'any"));
    assert!(!has_unbounded_type("type State = `any ${"));
    assert!(has_unbounded_type("type State = `${ any"));
    assert!(!has_unbounded_type(""));
    assert!(has_unbounded_type("readonly any: string"));
    assert!(!has_unbounded_type("{ readonly any: string }"));
}

#[test]
fn leading_documentation_and_white_space_keep_the_verdict() {
    for d in ["type A = any;", "type A = { any: string };", "type B = `${bigint}`;", "", "/* any"] {
        assert_eq!(has_unbounded_type(&format!("/* any // bigint */ {d}")), has_unbounded_type(d));
        assert_eq!(has_unbounded_type(&format!(" \n{d}")), has_unbounded_type(d));
    }
}

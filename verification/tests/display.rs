//! Tests of value rendering.
use lyric::Val;

type V = Val<()>;

#[test]
fn nil_to_string() {
    assert_eq!(V::Nil.to_string(), "nil");
}

#[test]
fn bool_to_string() {
    assert_eq!(V::Bool(true).to_string(), "true");
    assert_eq!(V::Bool(false).to_string(), "false");
}

#[test]
fn int_to_string() {
    assert_eq!(V::Int(5).to_string(), "5");
    assert_eq!(V::Int(0).to_string(), "0");
    assert_eq!(V::Int(-99).to_string(), "-99");
}

#[test]
fn string_to_string() {
    assert_eq!(V::string("hello").to_string(), "\"hello\"");
    assert_eq!(
        V::string("  hello  world  ").to_string(),
        "\"  hello  world  \"",
    );
}

#[test]
fn symbol_to_string() {
    assert_eq!(V::symbol("hello").to_string(), "hello");
}

#[test]
fn keyword_to_string() {
    assert_eq!(V::keyword("hello").to_string(), ":hello");
}

#[test]
fn list_to_string() {
    assert_eq!(
        V::List(vec![V::symbol("my-func"), V::Int(5), V::string("string")]).to_string(),
        "(my-func 5 \"string\")"
    );
    assert_eq!(
        V::List(vec![
            V::symbol("hello"),
            V::List(vec![
                V::symbol("world"),
                V::List(vec![V::keyword("a_keyword")])
            ]),
            V::string("string"),
            V::Int(10),
            V::Int(-99),
        ])
        .to_string(),
        "(hello (world (:a_keyword)) \"string\" 10 -99)"
    );
}

#[test]
fn quoted_to_string() {
    assert_eq!(
        V::List(vec![V::symbol("quote"), V::symbol("hello")]).to_string(),
        "'hello"
    );
    assert_eq!(
        V::List(vec![V::symbol("quote"), V::List(vec![])]).to_string(),
        "'()"
    );
    assert_eq!(
        V::List(vec![
            V::symbol("quote"),
            V::List(vec![V::Int(1), V::Int(2), V::Int(3)])
        ])
        .to_string(),
        "'(1 2 3)"
    );
    assert_eq!(
        V::List(vec![
            V::symbol("quote"),
            V::List(vec![
                V::Int(1),
                V::Int(2),
                V::Int(3),
                V::List(vec![
                    V::symbol("quote"),
                    V::List(vec![V::Int(4), V::Int(5), V::Int(6)])
                ])
            ]),
        ])
        .to_string(),
        "'(1 2 3 '(4 5 6))"
    );
}

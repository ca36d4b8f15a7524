use projup::data::{convert_case, get_words, to_case, Cases};

#[test]
fn get_words_test()
{
    let source = "Hello **- 123world_beansAREcOOL555";
    let words = get_words(source);
    let expect = vec!["Hello", "123", "world", "beans", "ARE", "cOOL", "555"];
    assert_eq!(words, expect);
}
#[test]
fn camel_test()
{
    let source = vec!["Hello", "123", "world", "beans", "ARE", "cOOL", "555"];
    let str = to_case(source, Cases::Camel);
    assert_eq!(str, "hello123WorldBeansAreCool555");
}
#[test]
fn pascal_test()
{
    let source = vec!["Hello", "123", "world", "beans", "ARE", "cOOL", "555"];
    let str = to_case(source, Cases::Pascal);
    assert_eq!(str, "Hello123WorldBeansAreCool555");
}
#[test]
fn snake_test()
{
    let source = vec!["Hello", "123", "world", "beans", "ARE", "cOOL", "555"];
    let str = to_case(source, Cases::Snake);
    assert_eq!(str, "hello_123_world_beans_are_cool_555");
}
#[test]
fn leading_number()
{
    let source = vec!["1", "Hello", "123", "world", "beans", "ARE", "cOOL", "555"];
    let str = to_case(source, Cases::Snake);
    assert_eq!(str, "_1_hello_123_world_beans_are_cool_555");
}
#[test]
fn camel_snake_test()
{
    let source = vec!["Hello", "123", "world", "beans", "ARE", "cOOL", "555"];
    let str = to_case(source, Cases::CamelSnake);
    assert_eq!(str, "hello_123_World_Beans_Are_Cool_555");
}
#[test]
fn sentence_test()
{
    let source = vec!["Hello", "123", "world", "beans", "ARE", "cOOL", "555"];
    let str = to_case(source, Cases::Sentence);
    assert_eq!(str, "Hello 123 world beans are cool 555");
}

#[test]
fn split_then_snake()
{
    let s = convert_case("Hello **- 123world_beansAREcOOL555", Cases::Snake);
    assert_eq!(s, "hello_123_world_beans_are_cool_555");
}

#[test]
fn other_cases()
{
    let words = vec!["my", "Project", "x2"];
    assert_eq!(to_case(words.clone(), Cases::Macro), "MY_PROJECT_X2");
    assert_eq!(to_case(words.clone(), Cases::Kebab), "my-project-x2");
    assert_eq!(to_case(words.clone(), Cases::Cobol), "MY-PROJECT-X2");
    assert_eq!(to_case(words.clone(), Cases::Train), "My-Project-X2");
    assert_eq!(to_case(words.clone(), Cases::Title), "My Project X2");
    assert_eq!(to_case(words.clone(), Cases::PascalSnake), "My_Project_X2");
}

#[test]
fn case_names()
{
    assert_eq!(Cases::from_str("Camel_SNAKE"), Ok(Cases::CamelSnake));
    assert_eq!(Cases::from_str("title"), Ok(Cases::Title));
    assert_eq!(Cases::from_str("upper"), Err("Invalid casing: upper".to_string()));
}

#[test]
fn words_of_empty_and_separators()
{
    assert!(get_words("").is_empty());
    assert!(get_words(" -- ").is_empty());
    assert_eq!(get_words("aBC"), vec!["aBC"]);
    assert_eq!(get_words("abC"), vec!["ab", "C"]);
}

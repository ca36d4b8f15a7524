use projup::file::{parse, rename, substitute, ParserData};

#[test]
fn string_replace()
{
    let source = "Hellow yelloਪ
        text message
        beans are cool
        _892-445 code";
    
    let mut keys = vec![("Hellow".to_string(), "Hello".to_string()),
        ("yelloਪ".to_string(), "yellow".to_string()),
        ("ess".to_string(), "ass".to_string()),
        ("2-4".to_string(), "777".to_string()),
        ("hfth".to_string(), "ha".to_string())];
    keys.sort_by(|a, b| a.0.cmp(&b.0));
    
    let pd = ParserData::new(&keys[..]);
    let bytes = parse(&source, &pd);
    let r = std::str::from_utf8(&bytes[..]);
    let replace = "Hello yellow
        text massage
        beans are cool
        _8977745 code";
    
    assert_eq!(r, Ok(replace));
}
#[test]
fn string_replace_2()
{
    let source = "bean are ok, i wear beans";
    
    let mut keys = vec![("bean".to_string(), "beans".to_string()),
        ("beans".to_string(), "shoes".to_string())];
    keys.sort_by(|a, b| a.0.cmp(&b.0));
    
    let pd = ParserData::new(&keys[..]);
    let bytes = parse(&source, &pd);
    let r = std::str::from_utf8(&bytes[..]);
    let replace = "beans are ok, i wear shoes";
    
    assert_eq!(r, Ok(replace));
}

#[test]
fn prefix_only_chosen_when_longer_fails()
{
    let keys = vec![(b"ab".to_vec(), b"X".to_vec()), (b"abcd".to_vec(), b"Y".to_vec())];
    assert_eq!(substitute(b"abcd abce ab a", &keys), b"Y abce X a".to_vec());
}

#[test]
fn second_pass_changes_nothing()
{
    let mut keys = vec![("cat".to_string(), "dog".to_string()), ("red".to_string(), "blue".to_string())];
    keys.sort_by(|a, b| a.0.cmp(&b.0));
    let pd = ParserData::new(&keys[..]);
    let once = parse("a red cat and a cat", &pd);
    assert_eq!(once, b"a blue dog and a dog".to_vec());
    let twice = substitute(&once, &pd.keys);
    assert_eq!(twice, once);
}

#[test]
fn empty_input_and_table()
{
    let keys: Vec<(Vec<u8>, Vec<u8>)> = vec![];
    assert_eq!(substitute(b"abc", &keys), b"abc".to_vec());
    let keys = vec![(b"a".to_vec(), b"b".to_vec())];
    assert_eq!(substitute(b"", &keys), Vec::<u8>::new());
}

#[test]
fn table_is_sorted_when_built()
{
    let keys = vec![("beans".to_string(), "shoes".to_string()), ("bean".to_string(), "beans".to_string())];
    let pd = ParserData::new(&keys[..]);
    assert_eq!(pd.keys[0].0, b"bean".to_vec());
    assert_eq!(pd.keys[1].0, b"beans".to_vec());
    assert_eq!(parse("bean are ok, i wear beans", &pd), b"beans are ok, i wear shoes".to_vec());
}

#[test]
fn file_names_are_rewritten()
{
    let keys = vec![("proj".to_string(), "hellow".to_string())];
    let pd = ParserData::new(&keys[..]);
    assert_eq!(rename("proj_main.rs", &pd), "hellow_main.rs");
    assert_eq!(rename("other.rs", &pd), "other.rs");
}

#[test]
fn equal_patterns_keep_their_order()
{
    let keys = vec![("b".to_string(), "1".to_string()), ("a".to_string(), "2".to_string()), ("b".to_string(), "3".to_string())];
    let pd = ParserData::new(&keys[..]);
    assert_eq!(pd.keys, vec![
        (b"a".to_vec(), b"2".to_vec()),
        (b"b".to_vec(), b"1".to_vec()),
        (b"b".to_vec(), b"3".to_vec()),
    ]);
    assert_eq!(parse("ab", &pd), b"21".to_vec());
}

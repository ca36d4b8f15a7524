use projup::file::{Object, Token};

fn abs(s: &str) -> Object
{
    Object::Absolute(s.to_string())
}

#[test]
fn tokens_from_content()
{
    let x = "[driug]
        rgdr = sb ibs
        \"co=ol\" =beans
        aਪa =   $yes=
        esc\\ \\= = \"ha \"
        
        // comment test
        [another]
        just this
        $vva
        \"\\\" $yay\"
        $ahh:\"for\\\"m1\"
        $ahh :  \"form2\"
        $ahh\\:beans
        lets = $ahh2:beans";
    
    let vec = [
        (Token::Tag("driug".to_string()), 0),
        (Token::Assign(abs("rgdr"), vec![abs("sb"), abs("ibs")]), 1),
        (Token::Assign(
            Object::String("co=ol".to_string()),
            vec![abs("beans")]
        ), 2),
        (Token::Assign(
            abs("aਪa"),
            vec![Object::Variable("yes".to_string()), abs("=")]
        ), 3),
        (Token::Assign(
            abs("esc ="),
            vec![Object::String("ha ".to_string())]
        ), 4),
        
        
        (Token::Tag("another".to_string()), 7),
        (Token::Declare(vec![abs("just"), abs("this")]), 8),
        (Token::Declare(vec![Object::Variable("vva".to_string())]), 9),
        (Token::Declare(vec![Object::String("\" $yay".to_string())]), 10),
        (Token::Declare(vec![Object::VariableFormat("ahh".to_string(), "for\"m1".to_string())]), 11),
        (Token::Declare(vec![Object::VariableFormat("ahh".to_string(), "form2".to_string())]), 12),
        (Token::Declare(vec![Object::Variable("ahh".to_string()), abs(":beans")]), 13),
        (Token::Assign(
            abs("lets"),
            vec![Object::Variable("ahh2".to_string()), abs(":beans")]
        ), 14)
    ];
    
    let tks = Token::from_content(x);
    
    assert_eq!(tks.as_slice(), vec);
}

#[test]
fn object_to_string()
{
    let objs = vec![abs("ha"),
        abs("ppy"),
        Object::String(" birth".to_string()),
        Object::Variable("test".to_string())];
    let str = Object::group_to_string_err::<(), _>(objs, |_, _| Ok("day".to_string()));
    assert_eq!(str, Ok("happy birthday".to_string()));
}

#[test]
fn tokens_to_string()
{
    let vec = [
        Token::Tag("driug".to_string()),
        Token::Assign(abs("rgdr"), vec![abs("sb"), abs("ibs")]),
        Token::Assign(
            Object::String("co=ol".to_string()),
            vec![abs("beans")]
        ),
        Token::Assign(
            abs("aਪa"),
            vec![Object::Variable("yes".to_string()), abs("=")]
        ),
        Token::Assign(
            abs("esc ="),
            vec![Object::String("ha ".to_string())]
        ),
        
        Token::Tag("another".to_string()),
        Token::Declare(vec![abs("just"), abs("this")]),
        Token::Declare(vec![Object::Variable("vva".to_string())]),
        Token::Declare(vec![Object::String("\" $yay".to_string())]),
        Token::Declare(vec![Object::VariableFormat("test".to_string(), "this".to_string())])
    ];
    
    let str = Token::to_content(&vec);
    let expect = "[driug]
rgdr = sb ibs
\"co=ol\" = beans
aਪa = $yes \\=
esc\\ \\= = \"ha \"
[another]
just this
$vva
\"\\\" $yay\"
$test:\"this\"\n";
    assert_eq!(str, expect);
}

#[test]
fn written_tokens_read_back()
{
    let toks = vec![
        Token::Tag("project".to_string()),
        Token::Assign(abs("name"), vec![Object::String("a \"b\" \\ c".to_string())]),
        Token::Assign(abs("k=ey"), vec![abs("x y"), Object::Variable("v".to_string()),
            Object::VariableFormat("d".to_string(), "%Y".to_string())]),
        Token::Declare(vec![abs("$x"), Object::String("=".to_string())]),
    ];
    let text = Token::to_content(&toks);
    let back: Vec<Token> = Token::from_content(&text).into_iter().map(|p| p.0).collect();
    assert_eq!(back, toks);
    assert_eq!(Token::to_content(&back), text);
}

#[test]
fn unterminated_and_empty()
{
    let t = Token::from_content("\"abc\n$v:\"fmt\n\"\"\n= x\n$v:");
    assert_eq!(t, vec![
        (Token::Declare(vec![Object::String("abc".to_string())]), 0),
        (Token::Declare(vec![Object::VariableFormat("v".to_string(), "fmt".to_string())]), 1),
        (Token::Declare(vec![]), 2),
        (Token::Assign(abs(""), vec![abs("x")]), 3),
        (Token::Declare(vec![Object::Variable("v".to_string())]), 4),
    ]);
}

#[test]
fn object_accessors()
{
    assert_eq!(abs("a").get_abs(), Some("a"));
    assert_eq!(Object::String("a".to_string()).get_abs(), None);
    assert_eq!(Object::String("s".to_string()).try_get_string(), Some("s".to_string()));
    assert_eq!(Object::Variable("v".to_string()).try_get_string(), None);
    let t = Token::Assign(abs("k"), vec![abs("v")]);
    assert_eq!(t.get_set(), Some(("k".to_string(), vec![abs("v")])));
    assert_eq!(Token::Declare(vec![]).get_set(), None);
    let r: Result<String, ()> = Object::VariableFormat("n".to_string(), "f".to_string())
        .to_string_err(|n, f| Ok(format!("{}|{}", n, f.unwrap())));
    assert_eq!(r, Ok("n|f".to_string()));
    assert_eq!(Object::group_plain(&vec![abs("a"), Object::String("b".to_string())]), Some("ab".to_string()));
    assert_eq!(Object::group_plain(&vec![Object::Variable("a".to_string())]), None);
}

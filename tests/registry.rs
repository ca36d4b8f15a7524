use projup::data::{Backups, RegistryError, Templates};

#[test]
fn templates_round_trip()
{
    let t = Templates::from_content("location = \"/home/u/templates\"\n\"rust\"\nweb\n").unwrap();
    assert_eq!(t.get_location(), "/home/u/templates");
    assert_eq!(t.try_get_template("rust"), Some("/home/u/templates/rust".to_string()));
    assert_eq!(t.try_get_template("go"), None);
    let text = t.to_content();
    assert_eq!(text, "location = \"/home/u/templates\"\n\"rust\"\n\"web\"\n");
}

#[test]
fn templates_rejects()
{
    assert!(Templates::from_content("\"rust\"\n").is_err());
    assert!(Templates::from_content("location = x\n[tag]\n").is_err());
    assert!(Templates::from_content("location = $v\n").is_err());
    let mut t = Templates::new("/t/".to_string());
    t.set_names(vec!["a".to_string()]);
    assert_eq!(t.try_get_template("a"), Some("/t/a".to_string()));
    t.set_location("/other".to_string());
    assert_eq!(t.get_location(), "/other");
}

#[test]
fn backups_round_trip()
{
    let text = "location = \"/b\"\n\"one\" = \"/p/one\"\n[imminent]\n\"two\" = \"/p/two\"\n";
    let mut b = Backups::from_content(text).unwrap();
    assert_eq!(b.get_location(), "/b");
    assert_eq!(b.try_get_source("one"), Some("/p/one"));
    assert_eq!(b.try_get_backup("two"), Some("/b/two".to_string()));
    assert!(b.is_project("two", "/p/two"));
    assert!(!b.is_project("two", "/p/one"));
    assert_eq!(b.iter(), vec![
        ("one".to_string(), "/p/one".to_string(), false),
        ("two".to_string(), "/p/two".to_string(), true),
    ]);
    b.set_pending("two", false);
    assert_eq!(b.try_remove("one"), Some(("/b/one".to_string(), false)));
    assert_eq!(b.try_remove("one"), None);
    assert_eq!(b.to_content(), "location = \"/b\"\n\"two\" = \"/p/two\"\n");
}

#[test]
fn backups_add_and_move()
{
    let mut b = Backups::new();
    b.set_location("/b".to_string());
    assert_eq!(b.try_add_name("p".to_string(), "/x/p".to_string(), false), Ok(()));
    assert_eq!(b.try_add_name("p".to_string(), "/y/p".to_string(), true),
        Err(RegistryError::ProjectNameExists("p".to_string())));
    assert_eq!(b.try_add_name("location".to_string(), "/y".to_string(), true),
        Err(RegistryError::InvalidProjectName("location".to_string())));
    assert_eq!(b.try_move("p", "q".to_string(), "/x/q".to_string(), true),
        Ok(Some(("/b/p".to_string(), "/b/q".to_string()))));
    assert_eq!(b.try_move("zz", "r".to_string(), "/x/r".to_string(), true),
        Err(RegistryError::UnknownProject("zz".to_string())));
    assert_eq!(b.into_location(), "/b");
    let b = Backups::new();
    assert_eq!(b.to_content(), "location = \"\"\n");
}

#[test]
fn templates_add_once()
{
    let mut t = Templates::new("/t".to_string());
    assert!(t.try_add("a".to_string()));
    assert!(!t.try_add("a".to_string()));
    assert!(t.try_add("b".to_string()));
    assert_eq!(t.names(), vec!["a".to_string(), "b".to_string()]);
    t.set_names(vec!["x".to_string(), "x".to_string()]);
    assert_eq!(t.names(), vec!["x".to_string()]);
}

use chrono::TimeZone;
use projup::data::config::dir_leaves_root;
use projup::data::{Config, ConfigArgs, ConfigError, DateStamp, VarCounter, Version};

fn clock_now() -> DateStamp
{
    let now = chrono::Local::now();
    DateStamp {
        secs: now.timestamp(),
        nanos: now.timestamp_subsec_nanos(),
        offset: chrono::Offset::fix(now.offset()).local_minus_utc(),
    }
}

fn formatted(d: DateStamp, format: &str) -> String
{
    let tz = chrono::FixedOffset::east_opt(d.offset).unwrap();
    tz.timestamp_opt(d.secs, d.nanos).unwrap().format(format).to_string()
}

#[test]
fn config_from_content_valid()
{
    let content = "[project]
        name = \"hellow\"
        
        [subs]
        this = that
        date = $date
        year = $date:\"%Y\"
        
        [deps]
        \"./path/b\" = https://$name";
    
    let now = clock_now();
    let args = ConfigArgs::at("test", now);
    
    let c = Config::from_content(content, Some(args));
    let should = Config {
        name: "hellow".to_string(),
        file_names: false,
        version: Version::new(1, 0, 0),
        keys: vec![("this".to_string(), "that".to_string()),
            ("date".to_string(), formatted(now, "%d/%m/%Y")),
            ("year".to_string(), formatted(now, "%Y"))],
        deps: vec![("./path/b".to_string(), "https://test".to_string())]
    };
    assert_eq!(c, Ok(should));
}
#[test]
fn config_from_content_valid_version()
{
    let content = "[project]
        name = \"helਪlow\"
        version = 1.14.1
        file_names = true";
    
    let c = Config::from_content(content, Some(()));
    let should = Config {
        name: "helਪlow".to_string(),
        file_names: true,
        version: Version::new(1, 14, 1),
        keys: vec![],
        deps: vec![]
    };
    assert_eq!(c, Ok(should));
}

#[test]
fn config_from_content_min()
{
    let content = "[project]
        name = \"hellow\"
        file_names = \"false\"
        
        [subs]
        this = that
        date = $date
        
        [deps]
        yes = ok";
    
    let c = Config::from_content::<()>(content, None);
    let should = Config {
        name: "hellow".to_string(),
        file_names: false,
        version: Version::new(1, 0, 0),
        keys: vec![],
        deps: vec![]
    };
    assert_eq!(c, Ok(should));
}

#[test]
fn config_from_content_invalid()
{
    let content = "[project]
        
        [subs]
        this = that";
    
    let c = Config::from_content(content, Some(()));
    assert_eq!(c, Err(ConfigError::MissingName));
    
    
    let content = "fdfth
        [project]
        name = \"hellow\"
        
        [subs]
        this = that";
    
    let c = Config::from_content(content, Some(()));
    assert_eq!(c, Err(ConfigError::InvalidSyntax(1)));
    
    
    let content = "[project]
        name = \"hellow\"
        
        [fthfh]";
    
    let c = Config::from_content(content, Some(()));
    assert_eq!(c, Err(ConfigError::UnknownTag(4, "fthfh".to_string())));
    
    
    let content = "[project]
        name = \"hellow\"
        hey = \"ff\"";
    
    let c = Config::from_content(content, Some(()));
    assert_eq!(c, Err(ConfigError::UnknownProperty(3, "hey".to_string())));
    
    
    let content = "[project]
        name = \"hellow\"
        
        [subs]
        jess = $me";
    
    let c = Config::from_content(content, Some(()));
    assert_eq!(c, Err(ConfigError::UnknownVariable(5, "me".to_string())));
    
    
    let content = "[project]
        name = \"hellow\"
        
        [subs]
        jess";
    
    let c = Config::from_content(content, Some(()));
    assert_eq!(c, Err(ConfigError::InvalidSyntax(5)));
    
    let content = "[project]
        name = \"hellow\"
        
        [deps]
        \"jess - drgdrg\"";
    
    let c = Config::from_content(content, Some(()));
    assert_eq!(c, Err(ConfigError::InvalidSyntax(5)));
    
    
    let content = "[project]
        name = \"hellow\"
        name = \"rgdrg\"";
    
    let c = Config::from_content(content, Some(()));
    assert_eq!(c, Err(ConfigError::DuplicateProperty("name".to_string())));
    
    
    let content = "[project]
        name = \"hellow\"
        file_names = sthf";
    
    let c = Config::from_content(content, Some(()));
    assert_eq!(c, Err(ConfigError::InvalidSyntax(3)));
}

#[test]
fn project_section_scenario()
{
    let c = Config::from_content("[project]\n name = \"hellow\"\n version = 1.14.1", Some(()));
    let should = Config {
        name: "hellow".to_string(),
        file_names: false,
        version: Version::new(1, 14, 1),
        keys: vec![],
        deps: vec![]
    };
    assert_eq!(c, Ok(should));
}

#[test]
fn defaults_when_missing()
{
    let c = Config::from_content("[project]\nname = x\n[subs]\na = b", Some(())).unwrap();
    assert_eq!(c.version, Version::new(1, 0, 0));
    assert!(!c.file_names);
    assert_eq!(c.keys, vec![("a".to_string(), "b".to_string())]);
}

#[test]
fn duplicate_name_across_sections()
{
    let content = "[subs]\na = b\n[project]\nname = one\n[deps]\nx = y\n[project]\nname = two";
    let c = Config::from_content(content, Some(()));
    assert_eq!(c, Err(ConfigError::DuplicateProperty("name".to_string())));
    let c = Config::from_content::<()>(content, None);
    assert_eq!(c, Err(ConfigError::DuplicateProperty("name".to_string())));
}

#[test]
fn duplicate_version_and_file_names()
{
    let c = Config::from_content("[project]\nname = a\nversion = 1\nversion = 2", Some(()));
    assert_eq!(c, Err(ConfigError::DuplicateProperty("version".to_string())));
    let c = Config::from_content("[project]\nname = a\nfile_names = true\nfile_names = false", Some(()));
    assert_eq!(c, Err(ConfigError::DuplicateProperty("file_names".to_string())));
}

#[test]
fn dependency_outside_project()
{
    let c = Config::from_content("[project]\nname = a\n[deps]\n\"../outside\" = url", Some(()));
    assert_eq!(c, Err(ConfigError::DependencyOutsideProject(4, "../outside".to_string())));
    let c = Config::from_content("[project]\nname = a\n[deps]\n\"a/../b\" = url", Some(())).unwrap();
    assert_eq!(c.deps, vec![("a/../b".to_string(), "url".to_string())]);
}

#[test]
fn dir_leaves_root_paths()
{
    assert!(dir_leaves_root(".."));
    assert!(dir_leaves_root("a/../../b"));
    assert!(dir_leaves_root("./.."));
    assert!(!dir_leaves_root("a/.."));
    assert!(!dir_leaves_root("./a/./b/../c"));
    assert!(!dir_leaves_root(""));
}

#[test]
fn invalid_version_is_syntax_error()
{
    let c = Config::from_content("[project]\nname = a\nversion = 1.x", Some(()));
    assert_eq!(c, Err(ConfigError::InvalidSyntax(3)));
    let c = Config::from_content("[project]\nname = $n", Some(()));
    assert_eq!(c, Err(ConfigError::InvalidSyntax(2)));
}

#[test]
fn fixed_clock_year()
{
    let args = ConfigArgs::at("proj", DateStamp { secs: 1_700_000_000, nanos: 0, offset: 0 });
    let c = Config::from_content("[project]\nname = a\n[subs]\nyear = $date:\"%Y\"\nday = $date\nclock = $time", Some(args)).unwrap();
    assert_eq!(c.keys, vec![
        ("year".to_string(), "2023".to_string()),
        ("day".to_string(), "14/11/2023".to_string()),
        ("clock".to_string(), "22:13:20".to_string()),
    ]);
}

#[test]
fn name_variable_cases_and_user_variables()
{
    let mut args = ConfigArgs::at("myCoolProject", DateStamp { secs: 0, nanos: 0, offset: 3600 });
    args.insert("who".to_string(), "me".to_string());
    args.insert("who".to_string(), "you".to_string());
    let c = Config::from_content(
        "[project]\nname = a\n[subs]\nn = $name:\"snake\"\nm = $name:\"nope\"\nw = $who\nh = $time",
        Some(args),
    ).unwrap();
    assert_eq!(c.keys, vec![
        ("n".to_string(), "my_cool_project".to_string()),
        ("m".to_string(), "myCoolProject".to_string()),
        ("w".to_string(), "you".to_string()),
        ("h".to_string(), "01:00:00".to_string()),
    ]);
}

#[test]
fn unknown_variable_with_args()
{
    let args = ConfigArgs::at("p", DateStamp { secs: 0, nanos: 0, offset: 0 });
    let c = Config::from_content("[project]\nname = a\n[deps]\n$where = url", Some(args));
    assert_eq!(c, Err(ConfigError::UnknownVariable(4, "where".to_string())));
}

#[test]
fn template_is_not_a_section()
{
    let c = Config::from_content("[template]", Some(()));
    assert_eq!(c, Err(ConfigError::UnknownTag(1, "template".to_string())));
}

#[test]
fn counter_records_lookups()
{
    let content = "[project]\nname = a\n[subs]\nx = $date:\"%Y\" $who\ny = $date\n[deps]\n$p = $who";
    let mut counter = Some(VarCounter::new());
    let c = Config::parse_with(content, &mut counter).unwrap();
    assert_eq!(c.keys, vec![("x".to_string(), "".to_string()), ("y".to_string(), "".to_string())]);
    let counter = counter.unwrap();
    assert_eq!(counter.seen, vec![
        (4, "date".to_string(), Some("%Y".to_string())),
        (4, "who".to_string(), None),
        (5, "date".to_string(), None),
        (7, "p".to_string(), None),
        (7, "who".to_string(), None),
    ]);
    assert_eq!(counter.expected(), vec![
        ("date".to_string(), vec!["%Y".to_string()]),
        ("who".to_string(), vec![]),
        ("p".to_string(), vec![]),
    ]);
}

#[test]
fn whitespace_classes()
{
    let t = projup::file::Token::from_content("a\u{3000}b\u{00A0}c");
    assert_eq!(t.len(), 1);
    if let projup::file::Token::Declare(objs) = &t[0].0
    {
        assert_eq!(objs.len(), 3);
    }
    else
    {
        panic!("expected a list");
    }
}

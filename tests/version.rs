use std::str::FromStr;

use projup::version::{ParseVersionError, Version};

#[test]
fn version_from_string()
{
    let s = "17";
    let v = Version::from_str(s);
    assert_eq!(v, Ok(Version::new(17, 0, 0)));
    
    let s = "5.5";
    let v = Version::from_str(s);
    assert_eq!(v, Ok(Version::new(5, 5, 0)));
    
    let s = "1.2.3";
    let v = Version::from_str(s);
    assert_eq!(v, Ok(Version::new(1, 2, 3)));
    
    let s = "1.2.3.7";
    let v = Version::from_str(s);
    assert_eq!(v, Err(ParseVersionError::Overflow));
    
    let s = "dorir";
    let v = Version::from_str(s);
    assert!(v.is_err());
    
    let s = "dorir.66";
    let v = Version::from_str(s);
    assert!(v.is_err());
    
    let s = "1 . 2 . 3";
    let v = Version::from_str(s);
    assert!(v.is_err());
}

#[test]
fn version_errors_kinds()
{
    assert!(Version::from_str("1.x.3.4").unwrap_err().is_int());
    assert!(!Version::from_str("1.2.3.x").unwrap_err().is_int());
    assert!(Version::from_str("").unwrap_err().is_int());
    assert!(Version::from_str("99999999999999999999999").unwrap_err().is_int());
    assert_eq!(Version::from_str("+4.0"), Ok(Version::new(4, 0, 0)));
    assert_eq!(Version::default(), Version::new(1, 0, 0));
}

use envfile::{EnvDeclaration, EnvFile, EnvFileRow, EnvMap};

#[test]
fn test_env_file_serialization() {
    let input = EnvFile(vec![
        EnvFileRow::CommentOnly("An example .env file for test".to_string()),
        EnvFileRow::Empty,
        EnvFileRow::Declaration(EnvDeclaration {
            name: "ABC".to_string(),
            value: None,
        }),
        EnvFileRow::Declaration(EnvDeclaration {
            name: "ABC".to_string(),
            value: Some("123".to_string()),
        }),
        EnvFileRow::Declaration(EnvDeclaration {
            name: "ABC".to_string(),
            value: Some("123".to_string()),
        }),
        EnvFileRow::Declaration(EnvDeclaration {
            name: "ABC".to_string(),
            value: None,
        }),
    ]);

    println!("{:?}", input.to_string());
    assert_eq!(EnvFile::from_str(input.to_string().as_str()), Ok(input));
}

#[test]
fn test_env_file_hash() {
    let input = EnvFile(vec![
        EnvFileRow::CommentOnly("An example .env file for test".to_string()),
        EnvFileRow::Empty,
        EnvFileRow::Declaration(EnvDeclaration {
            name: "ABC".to_string(),
            value: None,
        }),
        EnvFileRow::Declaration(EnvDeclaration {
            name: "BCD".to_string(),
            value: Some("123".to_string()),
        }),
        EnvFileRow::Declaration(EnvDeclaration {
            name: "CDE".to_string(),
            value: Some("123".to_string()),
        }),
        EnvFileRow::Declaration(EnvDeclaration {
            name: "DEF".to_string(),
            value: None,
        }),
    ]);
    let mut output = EnvMap::new();
    output.insert("BCD".to_string(), "123".to_string());
    output.insert("CDE".to_string(), "123".to_string());

    assert_eq!(input.env(), output);
}

#[test]
fn test_env_file_apply() {
    let mut input = EnvFile(vec![
        EnvFileRow::CommentOnly("An example .env file for test".to_string()),
        EnvFileRow::Empty,
        EnvFileRow::Declaration(EnvDeclaration {
            name: "ABC".to_string(),
            value: None,
        }),
        EnvFileRow::Declaration(EnvDeclaration {
            name: "BCD".to_string(),
            value: Some("123".to_string()),
        }),
        EnvFileRow::Declaration(EnvDeclaration {
            name: "CDE".to_string(),
            value: Some("123".to_string()),
        }),
        EnvFileRow::Declaration(EnvDeclaration {
            name: "DEF".to_string(),
            value: None,
        }),
    ]);
    let mut map = EnvMap::new();
    map.insert("ABC".to_string(), "123".to_string());
    map.insert("CDE".to_string(), "456".to_string());
    map.insert("DEF".to_string(), "123".to_string());
    map.insert("EFG".to_string(), "789".to_string());
    let output_1 = r#"# An example .env file for test

ABC=123
BCD=123
CDE=456
DEF=123

# Additional values
EFG=789
"#;
    let output_2 = r#"# An example .env file for test

ABC=123
BCD=123
CDE=123
DEF=123

# Additional values
EFG=789
"#;

    assert_eq!(input.apply(&map, true).to_string(), output_1.to_string());
    input.apply_assign(&map, false);
    assert_eq!(input.to_string(), output_2.to_string());
}

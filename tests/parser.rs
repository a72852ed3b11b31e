use libucl::{Emitter, Flags, Parser, Type, UclSchemaErrorType};
use regex::Regex;

const DOC: &str = r#"name = "test_string";
            section {
                nice = true;
                server = ["http://localhost:6666", "test_string"];
                chunk = 1Gb;
            }"#;

const NESTED: &str = r#"section {
    flag = true;
    number = 10k;
    subsection {
        hosts = {
            host = "localhost";
            port = 9000
        }
        hosts = {
            host = "remotehost"
            port = 9090
        }
    }
}"#;

#[test]
fn string_parsing() {
    let p = Parser::new();
    let s = r#"test_string = "test_string""#;

    assert!(p.parse(s).is_ok());
}

#[test]
fn empty_string_parsing() {
    let p = Parser::new();
    let s = r#""#;

    assert!(p.parse(s).is_ok());
}

#[test]
fn key_fetching() {
    let p = Parser::new();
    let s = r#"test_var = 10"#;
    let res = p.parse(s).unwrap();

    assert_eq!(res.fetch("test_var").unwrap().as_int(), Some(10));
}

#[test]
fn flags() {
    let s = r#"test_Var = 10"#;
    let p = Parser::with_flags(Flags::DEFAULT);
    let res = p.parse(s).unwrap();

    assert!(res.fetch("test_var").is_none());

    let p = Parser::with_flags(Flags::LOWERCASE);
    let res = p.parse(s).unwrap();

    assert_eq!(res.fetch("test_var").unwrap().as_int(), Some(10));
}

#[test]
fn variables() {
    let s = r#"testVar = $ENV"#;
    let mut p = Parser::new();
    p.register_var("ENV".to_string(), "test".to_string());
    let res = p.parse(s).unwrap();

    assert_eq!(res.fetch("testVar").unwrap().as_string(), Some("test".to_string()));
}

#[test]
fn parser_parse_array_and_iter() {
    let parser = Parser::new();
    let result = parser.parse(DOC).unwrap();
    let val = result.fetch_path("section.server");
    assert!(val.is_some());

    let mut obj = val.unwrap();
    assert_eq!(obj.get_type() == Type::Array, true);
    assert_eq!(obj.next().unwrap().as_string().unwrap(), "http://localhost:6666");
    assert_eq!(obj.next().unwrap().as_string().unwrap(), "test_string");
    assert_eq!(obj.next().is_none(), true);

    let val = result.fetch_path("section.server").unwrap();
    for o in val.elements() {
        assert_ne!(o.as_string(), None);
    }
}

#[test]
fn object_dump() {
    let parser = Parser::new();
    let result = parser.parse(DOC).unwrap();
    let val = result.fetch_path("section.server");
    assert!(val.is_some());
    assert_eq!(result.dump().len(), 138);
}

#[test]
fn object_dump_into_json() {
    let parser = Parser::new();
    let result = parser.parse(NESTED).unwrap();
    let regex = Regex::new("\"flag\": true").unwrap();
    let val = result.dump_into(Emitter::JSON);
    assert_eq!(regex.is_match(val.as_str()), true);
}

#[test]
fn object_dump_into_json_compact() {
    let parser = Parser::new();
    let result = parser.parse(NESTED).unwrap();
    let regex = Regex::new("\"flag\":true").unwrap();
    let val = result.dump_into(Emitter::JSONCompact);
    assert_eq!(regex.is_match(val.as_str()), true);
}

#[test]
fn object_dump_into_yml() {
    let parser = Parser::new();
    let result = parser.parse(NESTED).unwrap();
    let regex = Regex::new("flag: true").unwrap();
    let val = result.dump_into(Emitter::YAML);
    assert_eq!(regex.is_match(val.as_str()), true);
}

#[test]
fn object_dump_into_config() {
    let parser = Parser::new();
    let result = parser.parse(NESTED).unwrap();
    let regex = Regex::new("flag = true").unwrap();
    let val = result.dump_into(Emitter::Config);
    assert_eq!(regex.is_match(val.as_str()), true);
}

#[test]
fn validate_with_schema() {
    let parser = Parser::new();
    let item = r#"{"key": "some string"}"#;
    let schema = r#"{"type": "object", "properties":{"key": {"type":"string"}}}"#;
    let item = parser.parse(item).unwrap();
    let parser = Parser::new();
    let schema = parser.parse(schema).unwrap();
    let res = item.validate_with_schema(&schema);
    assert_eq!(res.is_ok(), true);
}

#[test]
fn validate_with_schema_wrong_type() {
    let parser = Parser::new();
    let item = r#"{"key": 123}"#;
    let schema = r#"{"type": "object", "properties":{"key": {"type":"string"}}}"#;
    let item = parser.parse(item).unwrap();
    let parser = Parser::new();
    let schema = parser.parse(schema).unwrap();
    let res = item.validate_with_schema(&schema);
    assert_eq!(res.is_err(), true);
    assert_eq!(res.err().unwrap().code, UclSchemaErrorType::TypeMismatch)
}

#[test]
fn validate_with_schema_missing_type() {
    let parser = Parser::new();
    let item = r#"{"key": "123"}"#;
    let schema = r#"{"type": "object", "properties":{"key": {"type":"string"},"value":{"type":"string"}}, "required":["value"]}"#;
    let item = parser.parse(item).unwrap();
    let parser = Parser::new();
    let schema = parser.parse(schema).unwrap();
    let res = item.validate_with_schema(&schema);
    assert_eq!(res.is_err(), true);
    assert_eq!(res.err().unwrap().code, UclSchemaErrorType::MissingProperty)
}

#[test]
fn validate_with_schema_invalid_schema() {
    let parser = Parser::new();
    let item = r#"{"key": "123"}"#;
    let schema = r#"{"type": "object", "properties":{"key": {"type":"aa"},"value":{"type":"string"}}, "required":["value"]}"#;
    let item = parser.parse(item).unwrap();
    let parser = Parser::new();
    let schema = parser.parse(schema).unwrap();
    let res = item.validate_with_schema(&schema);
    assert_eq!(res.is_err(), true);
    assert_eq!(res.err().unwrap().code, UclSchemaErrorType::InvalidSchema)
}

#[test]
fn validate_with_schema_invalid_constraint() {
    let parser = Parser::new();
    let item = r#"{"key": "123"}"#;
    let schema = r#"{"type": "object", "properties":{"key": {"type":"string","maxLength":2}}}"#;
    let item = parser.parse(item).unwrap();
    let parser = Parser::new();
    let schema = parser.parse(schema).unwrap();
    let res = item.validate_with_schema(&schema);
    assert_eq!(res.is_err(), true);
    assert_eq!(res.err().unwrap().code, UclSchemaErrorType::Constraint)
}

#[test]
fn validate_with_schema_missing_dependency() {
    let parser = Parser::new();
    let item = r#"{"key": "123"}"#;
    let schema = r#"{"type": "object",
        "properties":{
            "key": {"type":"string"},
            "value":{"type":"string"}
         },
        "dependencies":{
            "key":["value"]
        }}"#;
    let item = parser.parse(item).unwrap();
    let parser = Parser::new();
    let schema = parser.parse(schema).unwrap();
    let res = item.validate_with_schema(&schema);
    assert_eq!(res.is_err(), true);
    assert_eq!(res.err().unwrap().code, UclSchemaErrorType::MissingDependency)
}

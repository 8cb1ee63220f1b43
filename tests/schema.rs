use api_schema::classify::{classify, BlockRole, ClassifyError, DocBlock, block_role};
use api_schema::html::classify_html;
use api_schema::model::{build, ApiModule, BuildError, MemberDescription};
use api_schema::shape::{parse_type, to_type_string, Primitive, TypeParseError, ValueShape};

fn block(tag: &str, class: &str, text: &str) -> DocBlock {
    DocBlock { tag: tag.to_string(), class: class.to_string(), text: text.to_string() }
}

fn member(name: &str) -> MemberDescription {
    MemberDescription { name: name.to_string(), doc: String::new(), shape: None }
}

#[test]
fn primitive_keywords_in_any_case() {
    for k in ["number", "NUMBER", "Number", "nUmBeR"] {
        assert_eq!(parse_type(k), Ok(ValueShape::Primitive(Primitive::Number)));
    }
    for k in ["string", "String", "STRING"] {
        assert_eq!(parse_type(k), Ok(ValueShape::Primitive(Primitive::String)));
    }
    for k in ["boolean", "Boolean", "BOOLEAN"] {
        assert_eq!(parse_type(k), Ok(ValueShape::Primitive(Primitive::Boolean)));
    }
}

#[test]
fn object_of_string_to_number_is_mapping() {
    assert_eq!(
        parse_type("Object<string, number>"),
        Ok(ValueShape::Mapping(
            Box::new(ValueShape::Primitive(Primitive::String)),
            Box::new(ValueShape::Primitive(Primitive::Number)),
        ))
    );
}

#[test]
fn map_container_keyword_any_case() {
    assert_eq!(
        parse_type("map<String, RoomPosition>"),
        Ok(ValueShape::Mapping(
            Box::new(ValueShape::Primitive(Primitive::String)),
            Box::new(ValueShape::NamedType("RoomPosition".to_string())),
        ))
    );
}

#[test]
fn inline_record() {
    assert_eq!(
        parse_type("{x: number, y: number}"),
        Ok(ValueShape::Record(vec![
            ("x".to_string(), ValueShape::Primitive(Primitive::Number)),
            ("y".to_string(), ValueShape::Primitive(Primitive::Number)),
        ]))
    );
}

#[test]
fn record_with_repeated_field() {
    assert_eq!(parse_type("{x: number, x: number}"), Err(TypeParseError::DuplicateField));
}

#[test]
fn nested_record_and_mapping() {
    assert_eq!(
        parse_type("{pos: {x: number, y: number}, rooms: Object<string, Room>}"),
        Ok(ValueShape::Record(vec![
            (
                "pos".to_string(),
                ValueShape::Record(vec![
                    ("x".to_string(), ValueShape::Primitive(Primitive::Number)),
                    ("y".to_string(), ValueShape::Primitive(Primitive::Number)),
                ])
            ),
            (
                "rooms".to_string(),
                ValueShape::Mapping(
                    Box::new(ValueShape::Primitive(Primitive::String)),
                    Box::new(ValueShape::NamedType("Room".to_string())),
                )
            ),
        ]))
    );
}

#[test]
fn empty_record() {
    assert_eq!(parse_type("{ }"), Ok(ValueShape::Record(vec![])));
}

#[test]
fn bare_name_is_named_type() {
    assert_eq!(parse_type("RoomPosition"), Ok(ValueShape::NamedType("RoomPosition".to_string())));
}

#[test]
fn other_generic_is_named_type() {
    assert_eq!(
        parse_type("Array<string>"),
        Ok(ValueShape::NamedType("Array<string>".to_string()))
    );
}

#[test]
fn unbalanced_is_malformed() {
    assert_eq!(parse_type("Object<string, number"), Err(TypeParseError::Malformed));
    assert_eq!(parse_type("{x: number"), Err(TypeParseError::Malformed));
    assert_eq!(parse_type("number>"), Err(TypeParseError::Malformed));
}

#[test]
fn blank_is_malformed() {
    assert_eq!(parse_type(""), Err(TypeParseError::Malformed));
    assert_eq!(parse_type("   "), Err(TypeParseError::Malformed));
}

#[test]
fn field_without_colon_is_malformed() {
    assert_eq!(parse_type("{x number}"), Err(TypeParseError::Malformed));
}

#[test]
fn surrounding_space_is_ignored() {
    assert_eq!(parse_type("  number "), Ok(ValueShape::Primitive(Primitive::Number)));
}

#[test]
fn written_shapes() {
    assert_eq!(to_type_string(&ValueShape::Primitive(Primitive::Boolean)), "boolean");
    assert_eq!(to_type_string(&ValueShape::NamedType("Creep".to_string())), "Creep");
    let m = parse_type("OBJECT<string,{a:number,b:Flag}>").unwrap();
    assert_eq!(to_type_string(&m), "Object<string, {a: number, b: Flag}>");
}

#[test]
fn written_shapes_read_back_equal() {
    for raw in [
        "number",
        "Boolean",
        "RoomPosition",
        "Object<string, number>",
        "{x: number, y: number}",
        "Map<string, {id: string, pos: RoomPosition}>",
        "{a: Object<string, Object<string, boolean>>, b: {}}",
        "Array<Creep>",
    ] {
        let first = parse_type(raw).unwrap();
        let again = parse_type(&to_type_string(&first)).unwrap();
        assert_eq!(first, again, "{}", raw);
    }
}

#[test]
fn roles_of_blocks() {
    assert_eq!(block_role(&block("h2", "", "Game")), BlockRole::ModuleHeading);
    assert_eq!(block_role(&block("h1", "x", "Game")), BlockRole::ModuleHeading);
    assert_eq!(block_role(&block("h3", "api-method", "f: number")), BlockRole::Method);
    assert_eq!(block_role(&block("h3", "api-property", "p: number")), BlockRole::Property);
    assert_eq!(block_role(&block("p", "", "text")), BlockRole::Text);
}

#[test]
fn one_module_two_methods_one_property() {
    let blocks = vec![
        block("h2", "", "Game"),
        block("p", "", "The main global game object."),
        block("h3", "api-method", "getObjectById: RoomObject"),
        block("p", "", "Get an object by its id."),
        block("h3", "api-method", "notify: Object<string, number"),
        block("h3", "api-property", "time: number"),
        block("p", "", "System game tick counter."),
    ];
    let c = classify(Some(&blocks)).unwrap();
    assert_eq!(c.modules.len(), 1);
    let m = &c.modules[0];
    assert_eq!(m.name, "Game");
    assert_eq!(m.doc, "The main global game object.");
    assert_eq!(m.methods.len(), 2);
    assert_eq!(m.properties.len(), 1);
    assert_eq!(m.methods[0].name, "getObjectById");
    assert_eq!(m.methods[0].doc, "Get an object by its id.");
    assert_eq!(m.methods[0].shape, Some(ValueShape::NamedType("RoomObject".to_string())));
    assert_eq!(m.methods[1].name, "notify");
    assert_eq!(m.methods[1].shape, None);
    assert_eq!(m.properties[0].name, "time");
    assert_eq!(m.properties[0].shape, Some(ValueShape::Primitive(Primitive::Number)));
    assert_eq!(m.properties[0].doc, "System game tick counter.");
    assert_eq!(c.warnings.len(), 1);
    assert_eq!(c.warnings[0].member, "notify");
    assert_eq!(c.warnings[0].error, TypeParseError::Malformed);
}

#[test]
fn several_modules_in_order() {
    let blocks = vec![
        block("p", "", "preamble"),
        block("h2", "", "Game"),
        block("h3", "api-property", "time: number"),
        block("h2", "", "Creep"),
        block("p", "", "A unit."),
        block("p", "", "It moves."),
        block("h3", "api-method", "move: number"),
    ];
    let c = classify(Some(&blocks)).unwrap();
    assert_eq!(c.modules.len(), 2);
    assert_eq!(c.modules[0].name, "Game");
    assert_eq!(c.modules[0].doc, "");
    assert_eq!(c.modules[0].properties.len(), 1);
    assert_eq!(c.modules[1].name, "Creep");
    assert_eq!(c.modules[1].doc, "A unit.\nIt moves.");
    assert_eq!(c.modules[1].methods.len(), 1);
    assert!(c.warnings.is_empty());
}

#[test]
fn no_headings_is_no_modules() {
    let blocks = vec![block("p", "", "text"), block("h3", "api-method", "f: number")];
    assert!(matches!(classify(Some(&blocks)), Err(ClassifyError::NoModules)));
    let empty: Vec<DocBlock> = vec![];
    assert!(matches!(classify(Some(&empty)), Err(ClassifyError::NoModules)));
}

#[test]
fn absent_root_is_missing_root() {
    assert!(matches!(classify(None), Err(ClassifyError::MissingRoot)));
}

#[test]
fn member_without_name_is_warned_and_dropped() {
    let blocks = vec![block("h2", "", "Game"), block("h3", "api-method", ": number")];
    let c = classify(Some(&blocks)).unwrap();
    assert_eq!(c.modules[0].methods.len(), 0);
    assert_eq!(c.warnings.len(), 1);
}

#[test]
fn html_page_is_classified() {
    let html = "<html><body><div class=\"api-content content\">\
        <h2>Game</h2><p>The main object.</p>\
        <h3 class=\"api-method\">cpuLimit: number</h3>\
        <h3 class=\"api-property\">rooms: Object&lt;string, Room&gt;</h3>\
        </div></body></html>";
    let c = classify_html(html).unwrap();
    assert_eq!(c.modules.len(), 1);
    assert_eq!(c.modules[0].name, "Game");
    assert_eq!(c.modules[0].doc, "The main object.");
    assert_eq!(c.modules[0].methods[0].shape, Some(ValueShape::Primitive(Primitive::Number)));
    assert_eq!(
        c.modules[0].properties[0].shape,
        Some(ValueShape::Mapping(
            Box::new(ValueShape::Primitive(Primitive::String)),
            Box::new(ValueShape::NamedType("Room".to_string())),
        ))
    );
}

#[test]
fn html_page_without_container() {
    let html = "<html><body><div class=\"other\"><h2>Game</h2></div></body></html>";
    assert!(matches!(classify_html(html), Err(ClassifyError::MissingRoot)));
}

#[test]
fn html_container_without_headings() {
    let html = "<html><body><div class=\"api-content content\"><p>x</p></div></body></html>";
    assert!(matches!(classify_html(html), Err(ClassifyError::NoModules)));
}

#[test]
fn duplicate_module_names_rejected() {
    let ms = vec![
        ApiModule::new("Game".to_string(), String::new()),
        ApiModule::new("Game".to_string(), "again".to_string()),
    ];
    assert_eq!(build(ms), Err(BuildError::DuplicateModule));
}

#[test]
fn duplicate_member_names_rejected() {
    let mut m = ApiModule::new("Game".to_string(), String::new());
    m.methods.push(member("notify"));
    m.methods.push(member("notify"));
    assert_eq!(build(vec![m]), Err(BuildError::DuplicateMember));
}

#[test]
fn method_and_property_may_share_a_name() {
    let mut m = ApiModule::new("Game".to_string(), String::new());
    m.methods.push(member("cpu"));
    m.properties.push(member("cpu"));
    let n = ApiModule::new("Creep".to_string(), String::new());
    let d = build(vec![m, n]).unwrap();
    assert_eq!(d.modules.len(), 2);
    assert_eq!(d.modules[0].name, "Game");
    assert_eq!(d.modules[1].name, "Creep");
}

#[test]
fn mismatched_brackets_are_malformed() {
    assert_eq!(parse_type("Object<string, number}"), Err(TypeParseError::Malformed));
    assert_eq!(parse_type("{x: number>"), Err(TypeParseError::Malformed));
    assert_eq!(parse_type("{x: Array<number}>}"), Err(TypeParseError::Malformed));
}

#[test]
fn repeated_field_keeps_member_unknown() {
    let blocks = vec![
        block("h2", "", "Room"),
        block("h3", "api-property", "pos: {x: number, x: number}"),
    ];
    let c = classify(Some(&blocks)).unwrap();
    assert_eq!(c.modules[0].properties.len(), 1);
    assert_eq!(c.modules[0].properties[0].shape, None);
    assert_eq!(c.warnings.len(), 1);
    assert_eq!(c.warnings[0].error, TypeParseError::DuplicateField);
}

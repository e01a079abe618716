use zorsh_schema::parser::{Parser, Resolution};
use zorsh_schema::resolve::SchemaError;
use zorsh_schema::schema::{Definition, Fields, SchemaGraph};
use zorsh_schema::zorsh::Zorsh;

fn named(fields: &[(&str, &str)]) -> Definition {
    Definition::Struct {
        fields: Fields::NamedFields(
            fields.iter().map(|(n, t)| (n.to_string(), t.to_string())).collect(),
        ),
    }
}

fn unnamed(types: &[&str]) -> Definition {
    Definition::Struct {
        fields: Fields::UnnamedFields(types.iter().map(|t| t.to_string()).collect()),
    }
}

fn variants(list: &[(&str, &str)]) -> Definition {
    Definition::Enum {
        variants: list
            .iter()
            .enumerate()
            .map(|(i, (n, t))| (i as i64, n.to_string(), t.to_string()))
            .collect(),
    }
}

fn graph(entries: Vec<(&str, Definition)>) -> SchemaGraph {
    let mut graph = SchemaGraph::new();
    for (name, definition) in entries {
        graph.insert(name.to_string(), definition);
    }
    graph
}

fn loaded(entries: Vec<(&str, Definition)>) -> Parser {
    let mut parser = Parser::new();
    parser.parse(&graph(entries)).unwrap();
    parser
}

fn point_and_segment() -> SchemaGraph {
    graph(vec![
        ("u32", Definition::Primitive(4)),
        ("Point", named(&[("x", "u32"), ("y", "u32")])),
        ("Segment", named(&[("a", "Point"), ("b", "Point")])),
    ])
}

const POINT: &str = "export const PointSchema = b.struct({\n  x: b.u32(),\n  y: b.u32(),\n});\n\n";
const POINT_TYPE: &str = "export type Point = b.infer<typeof PointSchema>;\n\n";
const SEGMENT: &str =
    "export const SegmentSchema = b.struct({\n  a: PointSchema,\n  b: PointSchema,\n});\n\n";
const SEGMENT_TYPE: &str = "export type Segment = b.infer<typeof SegmentSchema>;\n\n";

#[test]
fn constructors_are_written_as_calls_on_b() {
    let parser = Parser::new();
    assert_eq!(parser.unit(), "b.unit()");
    assert_eq!(parser.bool(), "b.bool()");
    assert_eq!(parser.u8(), "b.u8()");
    assert_eq!(parser.u16(), "b.u16()");
    assert_eq!(parser.u32(), "b.u32()");
    assert_eq!(parser.u64(), "b.u64()");
    assert_eq!(parser.u128(), "b.u128()");
    assert_eq!(parser.i8(), "b.i8()");
    assert_eq!(parser.i16(), "b.i16()");
    assert_eq!(parser.i32(), "b.i32()");
    assert_eq!(parser.i64(), "b.i64()");
    assert_eq!(parser.i128(), "b.i128()");
    assert_eq!(parser.float32(), "b.f32()");
    assert_eq!(parser.float64(), "b.f64()");
    assert_eq!(parser.string(), "b.string()");
}

#[test]
fn constructors_with_arguments_wrap_them() {
    let parser = Parser::new();
    assert_eq!(parser.array("b.u8()".to_string(), 32), "b.array(b.u8(), 32)");
    assert_eq!(parser.array("X".to_string(), 0), "b.array(X, 0)");
    assert_eq!(parser.vec("b.u8()".to_string()), "b.vec(b.u8())");
    assert_eq!(parser.struct_("\n  x: b.u8(),".to_string()), "b.struct({\n  x: b.u8(),\n})");
    assert_eq!(parser.struct_(String::new()), "b.struct({\n})");
    assert_eq!(parser.tuple("b.u8(), ".to_string()), "b.tuple([b.u8(), ])");
    assert_eq!(parser.enum_("\n  A: b.unit(),".to_string()), "b.enum({\n  A: b.unit(),\n})");
    assert_eq!(parser.option("b.u8()".to_string()), "b.option(b.u8())");
    assert_eq!(parser.hash_set("b.u8()".to_string()), "b.hashSet(b.u8())");
    assert_eq!(
        parser.hash_map("b.string()".to_string(), "b.u32()".to_string()),
        "b.hashMap(b.string(), b.u32())"
    );
}

#[test]
fn generic_names_resolve_by_their_parameters() {
    let mut parser = Parser::new();
    assert_eq!(parser.parse_type("Option<String>").unwrap(), "b.option(b.string())");
    assert_eq!(parser.parse_type("HashMap<String,u32>").unwrap(), "b.hashMap(b.string(), b.u32())");
    assert_eq!(parser.parse_type("()").unwrap(), "b.unit()");
    assert_eq!(parser.parse_type("Vec<u8>").unwrap(), "b.vec(b.u8())");
    assert_eq!(parser.parse_type("HashSet<i64>").unwrap(), "b.hashSet(b.i64())");
}

#[test]
fn nested_generic_names_resolve_at_every_depth() {
    let mut parser = Parser::new();
    assert_eq!(
        parser.parse_type("Vec<Option<HashSet<u16>>>").unwrap(),
        "b.vec(b.option(b.hashSet(b.u16())))"
    );
    assert_eq!(
        parser.parse_type("HashMap<String, Vec<(u8, u16)>>").unwrap(),
        "b.hashMap(b.string(), b.vec(b.tuple([b.u8(), b.u16()])))"
    );
    assert_eq!(
        parser.parse_type("HashMap<(u8, u16), HashMap<String, bool>>").unwrap(),
        "b.hashMap(b.tuple([b.u8(), b.u16()]), b.hashMap(b.string(), b.bool()))"
    );
}

#[test]
fn tuple_names_resolve_to_tuples_of_their_elements() {
    let mut parser = Parser::new();
    assert_eq!(parser.parse_type("(u32, String)").unwrap(), "b.tuple([b.u32(), b.string()])");
    assert_eq!(parser.parse_type("(u8)").unwrap(), "b.tuple([b.u8()])");
    assert_eq!(
        parser.parse_type("((u8, u16), f32)").unwrap(),
        "b.tuple([b.tuple([b.u8(), b.u16()]), b.f32()])"
    );
}

#[test]
fn tuple_name_and_tuple_definition_give_the_same_code() {
    let mut parser = loaded(vec![(
        "Pair",
        Definition::Tuple { elements: vec!["u8".to_string(), "String".to_string()] },
    )]);
    assert_eq!(parser.parse_type("Pair").unwrap(), parser.parse_type("(u8, String)").unwrap());
}

#[test]
fn well_known_names_select_their_constructor() {
    let mut parser = Parser::new();
    let expected = [
        ("String", "b.string()"),
        ("bool", "b.bool()"),
        ("u8", "b.u8()"),
        ("u16", "b.u16()"),
        ("u32", "b.u32()"),
        ("u64", "b.u64()"),
        ("u128", "b.u128()"),
        ("i8", "b.i8()"),
        ("i16", "b.i16()"),
        ("i32", "b.i32()"),
        ("i64", "b.i64()"),
        ("i128", "b.i128()"),
        ("f32", "b.f32()"),
        ("f64", "b.f64()"),
    ];
    for (name, code) in expected {
        assert_eq!(parser.parse_type(name).unwrap(), code);
    }
}

#[test]
fn well_known_names_win_over_their_definitions() {
    let mut parser = loaded(vec![("i32", Definition::Primitive(4)), ("f64", Definition::Primitive(8))]);
    assert_eq!(parser.parse_type("i32").unwrap(), "b.i32()");
    assert_eq!(parser.parse_type("f64").unwrap(), "b.f64()");
}

#[test]
fn undefined_name_becomes_a_placeholder() {
    let mut parser = Parser::new();
    let code = parser.parse_type("Ghost").unwrap();
    assert_eq!(code, "/* TODO: Resolve Ghost */");
    assert!(code.contains("Ghost"));
    assert_eq!(parser.parse_type("").unwrap(), "/* TODO: Resolve  */");
    assert_eq!(parser.parse_type("Vec<Ghost>").unwrap(), "b.vec(/* TODO: Resolve Ghost */)");
}

#[test]
fn undefined_name_does_not_end_the_generation() {
    let mut parser = Parser::new();
    let output = parser
        .parse(&graph(vec![
            ("Haunted", named(&[("ghost", "Ghost"), ("count", "u32")])),
            ("Plain", named(&[("flag", "bool")])),
        ]))
        .unwrap();
    assert_eq!(
        output,
        "import { b } from \"zorsh\";\n\n\
         export const HauntedSchema = b.struct({\n  ghost: /* TODO: Resolve Ghost */,\n  count: b.u32(),\n});\n\n\
         export type Haunted = b.infer<typeof HauntedSchema>;\n\n\
         export const PlainSchema = b.struct({\n  flag: b.bool(),\n});\n\n\
         export type Plain = b.infer<typeof PlainSchema>;\n\n"
    );
}

#[test]
fn missing_delimiter_is_an_error() {
    let names = ["Vec<u8", "(u8, u16", "(", "HashMap<String>", "a>b<c", "HashMap<(u8, u16)>"];
    for name in names {
        let mut parser = Parser::new();
        assert_eq!(parser.parse_type(name), Err(SchemaError::MissingDelimiter));
    }
}

#[test]
fn unknown_generic_base_is_looked_up_whole() {
    let mut parser = loaded(vec![(
        "BTreeSet<u8>",
        Definition::Sequence { length_width: 4, length_bound: 4294967295, elements: "u8".to_string() },
    )]);
    assert_eq!(parser.parse_type("BTreeSet<u8>").unwrap(), "b.vec(b.u8())");
    assert_eq!(parser.parse_type("Box<u8>").unwrap(), "/* TODO: Resolve Box<u8> */");
}

#[test]
fn primitive_width_table() {
    let table: [(&str, u8, &str); 8] = [
        ("nothing", 0, "b.unit()"),
        ("bool", 1, "b.bool()"),
        ("byte", 1, "b.u8()"),
        ("short", 2, "b.u16()"),
        ("word", 4, "b.u32()"),
        ("float", 4, "b.u32()"),
        ("long", 8, "b.u64()"),
        ("wide", 16, "b.u128()"),
    ];
    for (name, size, code) in table {
        let mut parser = loaded(vec![(name, Definition::Primitive(size))]);
        assert_eq!(parser.generated_type(name), Some(code.to_string()));
        if name != "bool" {
            assert_eq!(parser.parse_type(name).unwrap(), code);
        }
    }
}

#[test]
fn unsupported_primitive_size_is_an_error() {
    for size in [3u8, 5, 6, 7, 9, 15, 17, 32, 255] {
        let mut parser = Parser::new();
        assert_eq!(
            parser.parse(&graph(vec![("odd", Definition::Primitive(size))])),
            Err(SchemaError::UnsupportedPrimitiveSize(size))
        );
    }
}

#[test]
fn unsupported_primitive_is_an_error_even_where_nothing_refers_to_it() {
    let mut parser = Parser::new();
    assert_eq!(
        parser.parse(&graph(vec![
            ("Point", named(&[("x", "u32")])),
            ("odd", Definition::Primitive(3)),
        ])),
        Err(SchemaError::UnsupportedPrimitiveSize(3))
    );
}

#[test]
fn sequence_is_an_array_or_a_vector_by_its_length_width() {
    let mut parser = loaded(vec![
        ("[u8; 32]", Definition::Sequence { length_width: 0, length_bound: 32, elements: "u8".to_string() }),
        ("Bytes", Definition::Sequence { length_width: 4, length_bound: 4294967295, elements: "u8".to_string() }),
        ("Short", Definition::Sequence { length_width: 1, length_bound: 255, elements: "Point".to_string() }),
        ("Empty", Definition::Sequence { length_width: 0, length_bound: 0, elements: "bool".to_string() }),
        ("Point", named(&[("x", "u32")])),
    ]);
    assert_eq!(parser.parse_type("[u8; 32]").unwrap(), "b.array(b.u8(), 32)");
    assert_eq!(parser.parse_type("Bytes").unwrap(), "b.vec(b.u8())");
    assert_eq!(parser.parse_type("Short").unwrap(), "b.vec(PointSchema)");
    assert_eq!(parser.parse_type("Empty").unwrap(), "b.array(b.bool(), 0)");
}

#[test]
fn tuple_definition_is_a_tuple_of_its_elements() {
    let mut parser = loaded(vec![
        ("Pair", Definition::Tuple { elements: vec!["u8".to_string(), "String".to_string()] }),
        ("One", Definition::Tuple { elements: vec!["u8".to_string()] }),
        ("None", Definition::Tuple { elements: vec![] }),
    ]);
    assert_eq!(parser.parse_type("Pair").unwrap(), "b.tuple([b.u8(), b.string()])");
    assert_eq!(parser.parse_type("One").unwrap(), "b.tuple([b.u8()])");
    assert_eq!(parser.parse_type("None").unwrap(), "b.tuple([])");
}

#[test]
fn structs_without_named_fields_are_written_in_place() {
    let mut parser = loaded(vec![
        ("Wrapper", unnamed(&["u32", "String"])),
        ("Marker", Definition::Struct { fields: Fields::Empty }),
        ("Holder", named(&[("w", "Wrapper"), ("m", "Marker")])),
    ]);
    assert_eq!(parser.parse_type("Wrapper").unwrap(), "b.tuple([b.u32(), b.string(), ])");
    assert_eq!(parser.parse_type("Marker").unwrap(), "b.unit()");
    assert_eq!(
        parser.generated_type("Holder").unwrap(),
        "b.struct({\n  w: b.tuple([b.u32(), b.string(), ]),\n  m: b.unit(),\n})"
    );
}

#[test]
fn record_is_referred_to_by_its_schema_name() {
    let mut parser = loaded(vec![("Point", named(&[("x", "u32")]))]);
    assert_eq!(parser.parse_type("Point").unwrap(), "PointSchema");
    assert_eq!(parser.parse_type("Vec<Point>").unwrap(), "b.vec(PointSchema)");
    assert_eq!(parser.parse_type("Option<Point>").unwrap(), "b.option(PointSchema)");
}

#[test]
fn records_may_refer_to_themselves_and_to_each_other() {
    let mut parser = Parser::new();
    let output = parser
        .parse(&graph(vec![
            ("Node", named(&[("next", "Option<Node>"), ("owner", "Vec<Tree>")])),
            ("Tree", named(&[("root", "Node")])),
        ]))
        .unwrap();
    assert_eq!(
        output,
        "import { b } from \"zorsh\";\n\n\
         export const NodeSchema = b.struct({\n  next: b.option(NodeSchema),\n  owner: b.vec(TreeSchema),\n});\n\n\
         export type Node = b.infer<typeof NodeSchema>;\n\n\
         export const TreeSchema = b.struct({\n  root: NodeSchema,\n});\n\n\
         export type Tree = b.infer<typeof TreeSchema>;\n\n"
    );
}

#[test]
fn enum_payload_that_names_a_struct_is_inlined() {
    let entries = vec![
        (
            "Effect",
            variants(&[("Damage", "EffectDamage"), ("Buff", "StatBuff"), ("Nothing", "()"), ("Mark", "EffectMark")]),
        ),
        ("EffectDamage", unnamed(&["u32"])),
        ("EffectMark", Definition::Struct { fields: Fields::Empty }),
        ("StatBuff", named(&[("stat", "String"), ("amount", "i32")])),
        ("Item", named(&[("effect", "Effect"), ("buff", "StatBuff")])),
    ];
    let effect = "b.enum({\
                  \n  Damage: b.tuple([b.u32(), ]),\
                  \n  Buff: b.struct({\n    stat: b.string(),\n    amount: b.i32(),\n}),\
                  \n  Nothing: b.unit(),\
                  \n  Mark: b.unit(),\
                  \n})";
    let mut parser = Parser::new();
    let output = parser.parse(&graph(entries)).unwrap();
    assert_eq!(
        output,
        format!(
            "import {{ b }} from \"zorsh\";\n\n\
             export const ItemSchema = b.struct({{\n  effect: {},\n  buff: StatBuffSchema,\n}});\n\n\
             export type Item = b.infer<typeof ItemSchema>;\n\n\
             export const StatBuffSchema = b.struct({{\n  stat: b.string(),\n  amount: b.i32(),\n}});\n\n\
             export type StatBuff = b.infer<typeof StatBuffSchema>;\n\n",
            effect
        )
    );
    assert_eq!(parser.parse_type("Effect").unwrap(), effect);
    assert!(!effect.contains("StatBuffSchema"));
}

#[test]
fn enum_payload_that_names_no_struct_is_resolved_as_a_type() {
    let mut parser = loaded(vec![
        ("Choice", variants(&[("Number", "u32"), ("Many", "Vec<Point>"), ("Other", "Ghost"), ("Pair", "Pair")])),
        ("Pair", Definition::Tuple { elements: vec!["u8".to_string(), "u8".to_string()] }),
        ("Point", named(&[("x", "u32")])),
    ]);
    assert_eq!(
        parser.parse_type("Choice").unwrap(),
        "b.enum({\
         \n  Number: b.u32(),\
         \n  Many: b.vec(PointSchema),\
         \n  Other: /* TODO: Resolve Ghost */,\
         \n  Pair: b.tuple([b.u8(), b.u8()]),\
         \n})"
    );
}

#[test]
fn enum_without_variants_has_an_empty_body() {
    let mut parser = loaded(vec![("Never", variants(&[]))]);
    assert_eq!(parser.parse_type("Never").unwrap(), "b.enum({\n})");
}

#[test]
fn enum_that_contains_itself_is_a_cycle() {
    let mut parser = Parser::new();
    assert_eq!(
        parser.parse(&graph(vec![("Loop", variants(&[("Again", "Loop")]))])),
        Err(SchemaError::CyclicDefinition)
    );
    let mut parser = Parser::new();
    assert_eq!(
        parser.parse(&graph(vec![
            ("Tree", variants(&[("Leaf", "()"), ("Node", "TreeNode")])),
            ("TreeNode", unnamed(&["Vec<Tree>"])),
        ])),
        Err(SchemaError::CyclicDefinition)
    );
}

#[test]
fn definitions_that_contain_each_other_are_a_cycle() {
    let mut parser = Parser::new();
    assert_eq!(
        parser.parse(&graph(vec![
            ("A", Definition::Tuple { elements: vec!["B".to_string()] }),
            ("B", Definition::Sequence { length_width: 4, length_bound: 10, elements: "A".to_string() }),
        ])),
        Err(SchemaError::CyclicDefinition)
    );
}

#[test]
fn cycle_through_a_record_reference_is_no_error() {
    let mut parser = Parser::new();
    let output = parser
        .parse(&graph(vec![
            ("Tree", variants(&[("Leaf", "()"), ("Node", "Branch")])),
            ("Branch", unnamed(&["Forest"])),
            ("Forest", named(&[("trees", "Vec<Tree>")])),
        ]))
        .unwrap();
    assert_eq!(
        output,
        "import { b } from \"zorsh\";\n\n\
         export const ForestSchema = b.struct({\n  trees: b.vec(b.enum({\n  Leaf: b.unit(),\n  Node: b.tuple([ForestSchema, ]),\n})),\n});\n\n\
         export type Forest = b.infer<typeof ForestSchema>;\n\n"
    );
}

#[test]
fn definition_is_resolved_once_and_found_again() {
    let mut parser = loaded(vec![
        ("Kind", variants(&[("A", "()"), ("B", "()")])),
        ("First", named(&[("kind", "Kind")])),
        ("Second", named(&[("kind", "Kind"), ("kinds", "Vec<Kind>")])),
    ]);
    let kind = "b.enum({\n  A: b.unit(),\n  B: b.unit(),\n})";
    assert_eq!(parser.generated_type("Kind").unwrap(), kind);
    assert_eq!(
        parser.generated_type("Second").unwrap(),
        format!("b.struct({{\n  kind: {},\n  kinds: b.vec({}),\n}})", kind, kind)
    );
    assert_eq!(parser.parse_type("Kind").unwrap(), kind);
    assert_eq!(parser.generated_type("Ghost"), None);
}

#[test]
fn parse_definition_keeps_the_code_of_a_definition() {
    let entries = vec![("Kind", variants(&[("A", "u8")])), ("Other", Definition::Primitive(2))];
    let mut parser = loaded(entries);
    let definition = variants(&[("A", "u8")]);
    assert_eq!(parser.parse_definition("Kind", &definition), Ok(()));
    assert_eq!(parser.generated_type("Kind").unwrap(), "b.enum({\n  A: b.u8(),\n})");
    assert_eq!(parser.parse_definition("Other", &Definition::Primitive(2)), Ok(()));
    assert_eq!(parser.generated_type("Other").unwrap(), "b.u16()");
}

#[test]
fn empty_graph_gives_the_import_line_alone() {
    let mut parser = Parser::new();
    assert_eq!(parser.parse(&SchemaGraph::new()).unwrap(), "import { b } from \"zorsh\";\n\n");
}

#[test]
fn only_records_are_exported() {
    let mut parser = Parser::new();
    let output = parser
        .parse(&graph(vec![
            ("u32", Definition::Primitive(4)),
            ("Kind", variants(&[("A", "()")])),
            ("Pair", Definition::Tuple { elements: vec!["u32".to_string()] }),
            ("List", Definition::Sequence { length_width: 4, length_bound: 9, elements: "u32".to_string() }),
            ("Wrapper", unnamed(&["u32"])),
            ("Marker", Definition::Struct { fields: Fields::Empty }),
            ("Record", named(&[])),
        ]))
        .unwrap();
    assert_eq!(
        output,
        "import { b } from \"zorsh\";\n\n\
         export const RecordSchema = b.struct({\n});\n\n\
         export type Record = b.infer<typeof RecordSchema>;\n\n"
    );
}

#[test]
fn every_record_is_exported_exactly_once() {
    let mut parser = Parser::new();
    let output = parser.parse(&point_and_segment()).unwrap();
    for name in ["Point", "Segment"] {
        assert_eq!(output.matches(&format!("export const {}Schema = ", name)).count(), 1);
        assert_eq!(output.matches(&format!("export type {} = ", name)).count(), 1);
    }
    assert_eq!(output.matches("export const ").count(), 2);
    assert_eq!(output.matches("export type ").count(), 2);
}

#[test]
fn point_is_defined_before_segment_refers_to_it() {
    let mut parser = Parser::new();
    let output = parser.parse(&point_and_segment()).unwrap();
    let point = output.find("export const PointSchema = ").unwrap();
    let point_end = point + output[point..].find(";\n").unwrap();
    let segment = output.find("export const SegmentSchema = ").unwrap();
    let reference = segment + output[segment..].find("PointSchema,").unwrap();
    assert!(point_end < segment);
    assert!(point_end < reference);
}

#[test]
fn point_and_segment_scenario() {
    let mut parser = Parser::new();
    let output = parser.parse(&point_and_segment()).unwrap();
    assert_eq!(
        output,
        format!("import {{ b }} from \"zorsh\";\n\n{}{}{}{}", POINT, POINT_TYPE, SEGMENT, SEGMENT_TYPE)
    );
    let schema = output.find("PointSchema = b.struct({\n  x: b.u32(),\n  y: b.u32(),\n})").unwrap();
    let alias = output.find("export type Point = ").unwrap();
    let later = output.find("SegmentSchema = b.struct({\n  a: PointSchema,\n  b: PointSchema,\n})").unwrap();
    assert!(schema < alias);
    assert!(alias < later);
}

#[test]
fn two_runs_on_the_same_input_give_the_same_output() {
    let mut first = Parser::new();
    let mut second = Parser::new();
    let a = first.parse(&point_and_segment()).unwrap();
    let b = second.parse(&point_and_segment()).unwrap();
    assert_eq!(a, b);
    let again = first.parse(&point_and_segment()).unwrap();
    assert_eq!(a, again);
}

#[test]
fn output_does_not_depend_on_the_order_of_insertion() {
    let forward = graph(vec![
        ("Point", named(&[("x", "u32"), ("y", "u32")])),
        ("Segment", named(&[("a", "Point"), ("b", "Point")])),
        ("u32", Definition::Primitive(4)),
    ]);
    let backward = graph(vec![
        ("u32", Definition::Primitive(4)),
        ("Segment", named(&[("a", "Point"), ("b", "Point")])),
        ("Point", named(&[("x", "u32"), ("y", "u32")])),
    ]);
    let mut first = Parser::new();
    let mut second = Parser::new();
    assert_eq!(first.parse(&forward).unwrap(), second.parse(&backward).unwrap());
}

#[test]
fn parse_starts_afresh_on_every_graph() {
    let mut parser = Parser::new();
    parser.parse(&graph(vec![("Kind", variants(&[("A", "()")]))])).unwrap();
    assert_eq!(parser.parse_type("Kind").unwrap(), "b.enum({\n  A: b.unit(),\n})");
    parser.parse(&graph(vec![("Kind", variants(&[("B", "u8")]))])).unwrap();
    assert_eq!(parser.parse_type("Kind").unwrap(), "b.enum({\n  B: b.u8(),\n})");
    parser.parse(&SchemaGraph::new()).unwrap();
    assert_eq!(parser.parse_type("Kind").unwrap(), "/* TODO: Resolve Kind */");
}

#[test]
fn records_are_resolved_before_other_definitions() {
    let mut parser = Parser::new();
    assert_eq!(
        parser.parse(&graph(vec![
            ("A", Definition::Primitive(3)),
            ("Z", named(&[("x", "(u8")])),
        ])),
        Err(SchemaError::MissingDelimiter)
    );
}

#[test]
fn parser_goes_on_after_an_error() {
    let mut parser = loaded(vec![("Kind", variants(&[("A", "u8")]))]);
    assert_eq!(parser.parse_type("Vec<u8"), Err(SchemaError::MissingDelimiter));
    assert_eq!(parser.parse_type("HashMap<Kind>"), Err(SchemaError::MissingDelimiter));
    assert_eq!(parser.parse_type("Vec<u8>").unwrap(), "b.vec(b.u8())");
    assert_eq!(parser.parse_type("Kind").unwrap(), "b.enum({\n  A: b.u8(),\n})");
}

#[test]
fn name_under_way_stays_so_after_an_error() {
    let mut parser = Parser::new();
    let cyclic = graph(vec![
        ("Loop", Definition::Tuple { elements: vec!["Loop".to_string()] }),
        ("Kind", variants(&[("A", "u8")])),
    ]);
    assert_eq!(parser.parse(&cyclic), Err(SchemaError::CyclicDefinition));
    assert_eq!(parser.parse_type("Loop"), Err(SchemaError::CyclicDefinition));
    assert_eq!(parser.parse_type("Kind").unwrap(), "b.enum({\n  A: b.u8(),\n})");
    assert_eq!(parser.parse(&cyclic), Err(SchemaError::CyclicDefinition));
}

#[test]
fn default_parser_is_a_new_parser() {
    let mut parser = Parser::default();
    assert_eq!(parser.parse_type("Ghost").unwrap(), "/* TODO: Resolve Ghost */");
    assert_eq!(parser.generated_type("Ghost"), None);
}

#[test]
fn errors_say_what_went_wrong() {
    assert_eq!(SchemaError::Undecodable.message(), "the bytes do not encode a schema");
    assert_eq!(SchemaError::UnsupportedPrimitiveSize(3).message(), "Unsupported primitive size: 3");
    assert_eq!(
        SchemaError::UnsupportedPrimitiveSize(255).message(),
        "Unsupported primitive size: 255"
    );
    assert_eq!(SchemaError::MissingDelimiter.message(), "a type name lacks a bracket or a comma");
    assert_eq!(SchemaError::CyclicDefinition.message(), "a definition contains itself");
}

#[test]
fn parse_definition_on_a_new_parser_follows_the_width_table() {
    let table: [(&str, u8, &str); 7] = [
        ("()", 0, "b.unit()"),
        ("bool", 1, "b.bool()"),
        ("u8", 1, "b.u8()"),
        ("u16", 2, "b.u16()"),
        ("u32", 4, "b.u32()"),
        ("u64", 8, "b.u64()"),
        ("u128", 16, "b.u128()"),
    ];
    let mut parser = Parser::new();
    for (name, size, code) in table {
        assert_eq!(parser.parse_definition(name, &Definition::Primitive(size)), Ok(()));
        assert_eq!(parser.generated_type(name), Some(code.to_string()));
    }
    for (name, _, code) in table {
        assert_eq!(parser.generated_type(name), Some(code.to_string()));
    }
}

#[test]
fn parse_definition_keeps_nothing_for_an_unsupported_size() {
    let mut parser = Parser::new();
    assert_eq!(
        parser.parse_definition("odd", &Definition::Primitive(3)),
        Err(SchemaError::UnsupportedPrimitiveSize(3))
    );
    assert_eq!(parser.generated_type("odd"), None);
    assert_eq!(parser.state("odd"), Resolution::InProgress);
}

#[test]
fn parse_definition_on_a_new_parser_tells_arrays_from_vectors() {
    let mut parser = Parser::new();
    let array = Definition::Sequence { length_width: 0, length_bound: 3, elements: "u8".to_string() };
    let vector =
        Definition::Sequence { length_width: 4, length_bound: 4294967295, elements: "u8".to_string() };
    assert_eq!(parser.parse_definition("A", &array), Ok(()));
    assert_eq!(parser.parse_definition("V", &vector), Ok(()));
    assert_eq!(parser.generated_type("A").unwrap(), "b.array(b.u8(), 3)");
    assert_eq!(parser.generated_type("V").unwrap(), "b.vec(b.u8())");
}

#[test]
fn parse_definition_of_an_enum_that_the_graph_does_not_hold() {
    let mut parser = loaded(vec![("StatBuff", named(&[("stat", "String"), ("amount", "i32")]))]);
    let effect = variants(&[("Idle", "()"), ("Buff", "StatBuff")]);
    assert_eq!(parser.parse_definition("Effect", &effect), Ok(()));
    assert_eq!(
        parser.generated_type("Effect").unwrap(),
        "b.enum({\n  Idle: b.unit(),\n  Buff: b.struct({\n    stat: b.string(),\n    amount: b.i32(),\n}),\n})"
    );
    assert_eq!(parser.parse_type("Effect").unwrap(), "/* TODO: Resolve Effect */");
}

#[test]
fn parse_definition_of_a_resolved_name_changes_nothing() {
    let mut parser = loaded(vec![("Kind", variants(&[("A", "u8")]))]);
    let kind = "b.enum({\n  A: b.u8(),\n})";
    assert_eq!(parser.generated_type("Kind").unwrap(), kind);
    assert_eq!(parser.parse_definition("Kind", &Definition::Primitive(3)), Ok(()));
    assert_eq!(parser.parse_definition("Kind", &Definition::Primitive(4)), Ok(()));
    assert_eq!(parser.generated_type("Kind").unwrap(), kind);
    assert_eq!(parser.parse_type("Kind").unwrap(), kind);
    assert_eq!(parser.generated_type("u8"), None);
}

#[test]
fn parse_definition_of_a_name_under_way_is_a_cycle() {
    let mut parser = Parser::new();
    assert_eq!(
        parser.parse_definition("odd", &Definition::Primitive(3)),
        Err(SchemaError::UnsupportedPrimitiveSize(3))
    );
    assert_eq!(
        parser.parse_definition("odd", &Definition::Primitive(4)),
        Err(SchemaError::CyclicDefinition)
    );
    assert_eq!(parser.generated_type("odd"), None);
}

#[test]
fn parse_definition_resolves_against_the_graph_and_not_against_itself() {
    let mut parser = Parser::new();
    let own = Definition::Tuple { elements: vec!["Own".to_string(), "u8".to_string()] };
    assert_eq!(parser.parse_definition("Own", &own), Ok(()));
    assert_eq!(
        parser.generated_type("Own").unwrap(),
        "b.tuple([/* TODO: Resolve Own */, b.u8()])"
    );
}

#[test]
fn code_kept_for_a_declared_name_is_found_by_parse_type() {
    let mut parser = Parser::new();
    let failed = parser.parse(&graph(vec![
        ("Again", Definition::Tuple { elements: vec!["Again".to_string()] }),
        ("Kind", variants(&[("A", "u8")])),
    ]));
    assert_eq!(failed, Err(SchemaError::CyclicDefinition));
    assert_eq!(parser.state("Kind"), Resolution::NotStarted);
    assert_eq!(parser.parse_definition("Kind", &Definition::Primitive(2)), Ok(()));
    assert_eq!(parser.parse_type("Kind").unwrap(), "b.u16()");
    assert_eq!(parser.parse_type("Vec<Kind>").unwrap(), "b.vec(b.u16())");
}

#[test]
fn state_tells_how_far_a_name_has_come() {
    let mut parser = Parser::new();
    assert_eq!(parser.state("u8"), Resolution::NotStarted);
    assert_eq!(parser.parse_definition("u8", &Definition::Primitive(1)), Ok(()));
    assert_eq!(parser.state("u8"), Resolution::Done("b.u8()".to_string()));
    parser
        .parse(&graph(vec![("Loop", Definition::Tuple { elements: vec!["Loop".to_string()] })]))
        .unwrap_err();
    assert_eq!(parser.state("Loop"), Resolution::InProgress);
    assert_eq!(parser.state("u8"), Resolution::NotStarted);
}

#[test]
fn resolving_a_record_name_keeps_nothing() {
    let mut parser = Parser::new();
    let failed = parser.parse(&graph(vec![
        ("Again", Definition::Tuple { elements: vec!["Again".to_string()] }),
        ("Kind", variants(&[("A", "u8")])),
        ("Point", named(&[("x", "u32")])),
    ]));
    assert_eq!(failed, Err(SchemaError::CyclicDefinition));
    assert_eq!(parser.parse_type("Point").unwrap(), "PointSchema");
    assert_eq!(parser.parse_type("Vec<Point>").unwrap(), "b.vec(PointSchema)");
    assert_eq!(parser.parse_type("u32").unwrap(), "b.u32()");
    assert_eq!(parser.parse_type("Ghost").unwrap(), "/* TODO: Resolve Ghost */");
    assert_eq!(parser.state("Ghost"), Resolution::NotStarted);
    assert_eq!(parser.state("u32"), Resolution::NotStarted);
    assert_eq!(parser.state("Kind"), Resolution::NotStarted);
    assert_eq!(parser.state("Again"), Resolution::InProgress);
    assert_eq!(
        parser.state("Point"),
        Resolution::Done("b.struct({\n  x: b.u32(),\n})".to_string())
    );
    assert_eq!(parser.parse_type("Kind").unwrap(), "b.enum({\n  A: b.u8(),\n})");
    assert_eq!(parser.state("Kind"), Resolution::Done("b.enum({\n  A: b.u8(),\n})".to_string()));
}

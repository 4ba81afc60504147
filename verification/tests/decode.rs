use tessstep::decode::{
    decode, decode_reachable, decode_reachable_profile, decode_reachable_profile_with_links, Error,
    ErrorKind, LinkSlot, Limits, OmittedSlot, RealClass,
};
use tessstep::limits::ParseLimits;
use tessstep::model::{parse, Document};
use tessstep::schema::{
    AggregateKind, Attribute, AttributeKind, Builtin, Declaration, DeclarationId, DeclarationKind,
    Domain, Expression, Schema, SchemaSet, SourceSpan, Symbol, UnsupportedDiagnostic,
};
use tessstep::value::EntityId;

fn span() -> SourceSpan {
    SourceSpan {
        source: 0,
        start: 0,
        end: 0,
        line: 1,
        column: 1,
    }
}
fn integer() -> Domain {
    Domain::Builtin {
        kind: Builtin::Integer,
        width: None,
        fixed: false,
    }
}
fn leak<T>(items: Vec<T>) -> &'static [T] {
    Box::leak(items.into_boxed_slice())
}
fn boxed(domain: Domain) -> &'static Domain {
    Box::leak(Box::new(domain))
}
fn expr(text: &'static str) -> Expression {
    Expression { text, span: span() }
}
fn attr(name: &'static str, domain: Domain, optional: bool) -> Attribute {
    Attribute {
        name,
        span: span(),
        domain,
        optional,
        kind: AttributeKind::Explicit,
    }
}
fn entity(
    name: &'static str,
    parents: &'static [DeclarationId],
    attributes: &'static [Attribute],
) -> Declaration {
    Declaration {
        name,
        schema: 0,
        span: span(),
        kind: DeclarationKind::Entity {
            abstract_entity: false,
            supertype_constraint: None,
            supertypes: parents,
            attributes,
            unique: &[],
            where_rules: &[],
        },
    }
}
fn base() -> Declaration {
    entity(
        "BASE",
        &[],
        leak(vec![
            attr("number", integer(), false),
            attr("next", Domain::Named(DeclarationId(0)), true),
        ]),
    )
}
fn child() -> Declaration {
    entity(
        "CHILD",
        leak(vec![DeclarationId(0)]),
        leak(vec![attr(
            "values",
            Domain::Aggregate {
                kind: AggregateKind::Array,
                bounds: Some((expr("-1"), expr("1"))),
                optional: true,
                unique: false,
                element: boxed(integer()),
            },
            false,
        )]),
    )
}
fn schemas() -> SchemaSet {
    SchemaSet {
        sources: leak(vec!["authored.exp"]),
        schemas: leak(vec![Schema {
            name: "TEST",
            span: span(),
            dependencies: &[],
            exports: &[],
            symbols: leak(vec![
                Symbol {
                    name: "BASE",
                    declaration: DeclarationId(0),
                },
                Symbol {
                    name: "CHILD",
                    declaration: DeclarationId(1),
                },
                Symbol {
                    name: "OTHER",
                    declaration: DeclarationId(2),
                },
                Symbol {
                    name: "ALIAS",
                    declaration: DeclarationId(1),
                },
            ]),
        }]),
        declarations: leak(vec![base(), child(), entity("OTHER", &[], &[])]),
        unsupported: &[],
    }
}
fn header() -> &'static str {
    "ISO-10303-21;HEADER;FILE_DESCRIPTION(('empty'),'2;1');FILE_NAME('','',(''),(''),'','','');FILE_SCHEMA(('TEST'));ENDSEC;"
}
fn text(body: &str) -> String {
    format!("{}DATA;{body}ENDSEC;END-ISO-10303-21;", header())
}
fn parse_text(text: &str) -> Document {
    parse(text.as_bytes().to_vec(), ParseLimits::default()).unwrap()
}
fn parse_body(body: &str) -> Document {
    parse_text(&text(body))
}
fn error(body: &str) -> Error {
    let set = schemas();
    decode(&parse_body(body), &set, "test", Limits::default(), &[])
        .err()
        .unwrap()
}
fn with_domain(domain: Domain) -> SchemaSet {
    SchemaSet {
        declarations: leak(vec![entity(
            "BASE",
            &[],
            leak(vec![attr("value", domain, false)]),
        )]),
        ..schemas()
    }
}
fn check(domain: Domain, value: &str) -> Result<(), Error> {
    check_with(domain, value, &[])
}
fn check_with(domain: Domain, value: &str, reals: &[RealClass]) -> Result<(), Error> {
    let set = with_domain(domain);
    decode(
        &parse_body(&format!("#1=BASE({value});")),
        &set,
        "test",
        Limits::default(),
        reals,
    )
    .map(|_| ())
}
fn class(text: &str, value: f64) -> RealClass {
    let integer = if value.fract() == 0.0 && value >= i64::MIN as f64 && value < -(i64::MIN as f64) {
        Some(value as i64)
    } else {
        None
    };
    let normalized = if value == 0.0 { 0.0f64 } else { value };
    RealClass {
        text: text.to_owned(),
        class: normalized.to_bits(),
        integer,
    }
}

#[test]
fn schema_decode_borrows_attributes_and_checks_forward_subtype_references() {
    let doc = parse_body("#9=BASE(2,#1);#1=ALIAS(3,#9,(1,$,3));");
    let set = schemas();
    let decoded = decode(&doc, &set, "TeSt", Limits::default(), &[]).unwrap();
    assert!(std::ptr::eq(decoded.document(), &doc));
    assert!(std::ptr::eq(decoded.schemas(), &set));
    assert_eq!(decoded.entities().len(), 2);
    let child = decoded.get(EntityId::new(1).unwrap()).unwrap();
    assert_eq!(child.declaration, Some(DeclarationId(1)));
    assert_eq!(
        child
            .attributes
            .iter()
            .map(|a| a.declaration.name)
            .collect::<Vec<_>>(),
        ["number", "next", "values"]
    );
    assert!(std::ptr::eq(
        child.attributes[0].value,
        &doc.entities().get(child.id).unwrap().kind.records()[0].parameters[0]
    ));
    assert!(decoded.get(EntityId::new(42).unwrap()).is_none());
}

#[test]
fn schema_decode_rejects_invalid_instances_with_precise_context() {
    for (body, expected) in [
        ("#1=UNKNOWN();", ErrorKind::UnknownEntity),
        ("#1=BASE(1);", ErrorKind::AttributeCount),
        ("#1=BASE($,$);", ErrorKind::RequiredValue),
        ("#1=BASE(*,$);", ErrorKind::TypeMismatch),
        ("#1=BASE(1.5,$);", ErrorKind::TypeMismatch),
        ("#1=BASE(1,#8);", ErrorKind::MissingReference),
        ("#1=BASE(1,#8);#8=OTHER();", ErrorKind::ReferenceType),
        ("#1=CHILD(1,$,(1,2));", ErrorKind::Cardinality),
        ("#1=CHILD(1,$,(1,'bad',3));", ErrorKind::TypeMismatch),
    ] {
        let result = error(body);
        assert_eq!(result.kind, expected, "{body}: {}", result.describe());
        assert_eq!(result.entity, EntityId::new(1));
        assert_eq!(result, error(body));
    }
    let input = text("#1=CHILD(1,$,(1,'bad',3));");
    let result = error("#1=CHILD(1,$,(1,'bad',3));");
    let span = result.source.unwrap();
    assert_eq!(
        &input[span.start.offset as usize..span.end.offset as usize],
        "'bad'"
    );
    assert_eq!(result.attribute, Some("values"));
}

#[test]
fn schema_decode_primitives_widths_and_aggregate_bounds() {
    for (kind, good, bad) in [
        (Builtin::Boolean, ".T.", ".U."),
        (Builtin::Logical, ".U.", ".OTHER."),
        (Builtin::Integer, "-9", "1.2"),
        (Builtin::Real, "1", "'1'"),
        (Builtin::Number, "1.5", ".T."),
        (Builtin::String, "'a'", "1"),
        (Builtin::Binary, "\"0F\"", "'a'"),
    ] {
        let domain = Domain::Builtin {
            kind,
            width: None,
            fixed: false,
        };
        assert!(check(domain, good).is_ok(), "{kind:?}");
        assert_eq!(
            check(domain, bad).err().unwrap().kind,
            ErrorKind::TypeMismatch
        );
    }
    assert!(check(Domain::Enumeration(leak(vec!["RED", "BLUE"])), ".RED.").is_ok());
    assert!(check(Domain::Enumeration(leak(vec!["RED", "BLUE"])), ".GREEN.").is_err());
    let string = Domain::Builtin {
        kind: Builtin::String,
        width: Some(expr("2")),
        fixed: true,
    };
    assert!(check(string, "'é😀'").is_ok());
    assert_eq!(check(string, "'a'").err().unwrap().kind, ErrorKind::Width);
    let binary = Domain::Builtin {
        kind: Builtin::Binary,
        width: Some(expr("3")),
        fixed: true,
    };
    assert!(check(binary, "\"17\"").is_ok());
    assert_eq!(check(binary, "\"0F\"").err().unwrap().kind, ErrorKind::Width);
    for kind in [AggregateKind::List, AggregateKind::Bag] {
        let domain = Domain::Aggregate {
            kind,
            bounds: Some((expr("1"), expr("?"))),
            optional: false,
            unique: false,
            element: boxed(integer()),
        };
        assert!(check(domain, "(1,2,2)").is_ok());
        assert_eq!(
            check(domain, "()").err().unwrap().kind,
            ErrorKind::Cardinality
        );
        assert_eq!(
            check(domain, "($)").err().unwrap().kind,
            ErrorKind::RequiredValue
        );
        let bounded = Domain::Aggregate {
            kind,
            bounds: Some((expr("1"), expr("2"))),
            optional: false,
            unique: false,
            element: boxed(integer()),
        };
        assert_eq!(
            check(bounded, "(1,2,3)").err().unwrap().kind,
            ErrorKind::Cardinality
        );
    }
}

#[test]
fn schema_decode_alias_cycles_external_references_and_populations() {
    let alias = Declaration {
        name: "COUNT",
        schema: 0,
        span: span(),
        kind: DeclarationKind::Type {
            domain: Domain::Named(DeclarationId(1)),
            where_rules: &[],
        },
    };
    let attrs = leak(vec![attr("amount", Domain::Named(DeclarationId(1)), false)]);
    let schema = SchemaSet {
        declarations: leak(vec![entity("BASE", &[], attrs), alias]),
        ..schemas()
    };
    assert_eq!(
        decode(
            &parse_body("#1=BASE(1);"),
            &schema,
            "test",
            Limits {
                max_depth: usize::MAX,
                ..Limits::default()
            },
            &[],
        )
        .err()
        .unwrap()
        .kind,
        ErrorKind::ResourceLimit
    );
    let external = text("#1=BASE(1,#2);").replace(
        "DATA;",
        "REFERENCE;#2=<https://example.invalid/item>;ENDSEC;DATA;",
    );
    // URI resources use angle brackets without string delimiters.
    let external = external.replace(
        "<'https://example.invalid/item'>",
        "<https://example.invalid/item>",
    );
    let doc = parse_text(&external);
    let set = schemas();
    assert_eq!(
        decode(&doc, &set, "test", Limits::default(), &[])
            .err()
            .unwrap()
            .kind,
        ErrorKind::Unsupported
    );
    let population = text("").replace("DATA;", "DATA('population',('TEST'));");
    let doc = parse_text(&population);
    assert_eq!(
        decode(&doc, &set, "test", Limits::default(), &[])
            .err()
            .unwrap()
            .kind,
        ErrorKind::Unsupported
    );
}

#[test]
fn schema_decode_fuzz_smoke() {
    let seed = text("#1=BASE(1,#2);#2=CHILD(2,#1,(3,$,4));");
    let limits = Limits {
        max_work: 10_000,
        max_depth: 32,
    };
    let set = schemas();
    let mut accepted = 0;
    for position in 0..seed.len() {
        for byte in [b'0', b'\'', b'$', b'*', b'(', b')', b';', b'X'] {
            let mut bytes = seed.as_bytes().to_vec();
            bytes[position] = byte;
            if let Ok(doc) = parse(bytes.clone(), ParseLimits::default()) {
                accepted += 1;
                let a = decode(&doc, &set, "test", limits, &[]);
                let b = decode(&doc, &set, "test", limits, &[]);
                match (a, b) {
                    (Ok(a), Ok(b)) => assert_eq!(a.entities().len(), b.entities().len()),
                    (Err(a), Err(b)) => {
                        assert_eq!(a, b);
                        if let Some(span) = a.source {
                            assert!(span.end.offset as usize <= bytes.len());
                        }
                    }
                    _ => panic!("nondeterministic decoding"),
                }
            }
        }
    }
    assert!(accepted > 100);
}

#[test]
fn schema_decode_limits_and_malformed_metadata_are_bounded() {
    let doc = parse_body("#1=BASE(1,#1);");
    let set = schemas();
    for limits in [
        Limits {
            max_work: 0,
            ..Limits::default()
        },
        Limits {
            max_depth: 0,
            ..Limits::default()
        },
    ] {
        assert_eq!(
            decode(&doc, &set, "test", limits, &[]).err().unwrap().kind,
            ErrorKind::ResourceLimit
        );
    }
    assert_eq!(
        decode(&doc, &set, "absent", Limits::default(), &[])
            .err()
            .unwrap()
            .kind,
        ErrorKind::UnknownSchema
    );
    let mut schema = schemas();
    schema.declarations = leak(vec![entity("BASE", leak(vec![DeclarationId(0)]), &[])]);
    assert_eq!(
        decode(&doc, &schema, "test", Limits::default(), &[])
            .err()
            .unwrap()
            .kind,
        ErrorKind::ResourceLimit
    );
    schema.declarations = leak(vec![entity(
        "BASE",
        leak(vec![DeclarationId(usize::MAX)]),
        &[],
    )]);
    assert_eq!(
        decode(&doc, &schema, "test", Limits::default(), &[])
            .err()
            .unwrap()
            .kind,
        ErrorKind::InvalidMetadata
    );
    assert_eq!(
        check(Domain::Named(DeclarationId(usize::MAX)), "1")
            .err()
            .unwrap()
            .kind,
        ErrorKind::InvalidMetadata
    );
    let mut abstract_base = base();
    if let DeclarationKind::Entity {
        ref mut abstract_entity,
        ..
    } = abstract_base.kind
    {
        *abstract_entity = true;
    }
    schema.declarations = leak(vec![abstract_base]);
    assert_eq!(
        decode(&doc, &schema, "test", Limits::default(), &[])
            .err()
            .unwrap()
            .kind,
        ErrorKind::AbstractEntity
    );
}

#[test]
fn schema_decode_unsupported_semantics_never_pass_silently() {
    assert_eq!(error("#1=(BASE(1,$)OTHER());").kind, ErrorKind::Unsupported);
    for domain in [
        Domain::Select(leak(vec![DeclarationId(0)])),
        Domain::Aggregate {
            kind: AggregateKind::SetOf,
            bounds: None,
            optional: false,
            unique: false,
            element: boxed(integer()),
        },
        Domain::Aggregate {
            kind: AggregateKind::List,
            bounds: Some((expr("1+1"), expr("?"))),
            optional: false,
            unique: false,
            element: boxed(integer()),
        },
    ] {
        assert_eq!(
            check(domain, "(1,2)").err().unwrap().kind,
            ErrorKind::Unsupported
        );
    }
    let mut schema = schemas();
    schema.unsupported = leak(vec![UnsupportedDiagnostic {
        code: "test",
        span: span(),
        message: "opaque",
    }]);
    assert_eq!(
        decode(&parse_body(""), &schema, "test", Limits::default(), &[])
            .err()
            .unwrap()
            .kind,
        ErrorKind::Unsupported
    );
    schema = schemas();
    schema.declarations = leak(vec![
        entity("BASE", leak(vec![DeclarationId(1), DeclarationId(2)]), &[]),
        child(),
        entity("OTHER", &[], &[]),
    ]);
    assert_eq!(
        decode(&parse_body("#1=BASE();"), &schema, "test", Limits::default(), &[])
            .err()
            .unwrap()
            .kind,
        ErrorKind::Unsupported
    );
    let derived = Attribute {
        kind: AttributeKind::Derived(expr("1")),
        ..attr("derived", integer(), false)
    };
    schema.declarations = leak(vec![entity("BASE", &[], leak(vec![derived]))]);
    assert_eq!(
        decode(&parse_body("#1=BASE();"), &schema, "test", Limits::default(), &[])
            .err()
            .unwrap()
            .kind,
        ErrorKind::Unsupported
    );
}

#[test]
fn decode_refuses_opaque_diagnostics_and_derived_attributes() {
    let mut schema = schemas();
    schema.unsupported = leak(vec![UnsupportedDiagnostic {
        code: "test",
        span: span(),
        message: "opaque",
    }]);
    assert_eq!(
        decode(&parse_body(""), &schema, "test", Limits::default(), &[])
            .err()
            .unwrap()
            .kind,
        ErrorKind::Unsupported
    );
    let derived = Attribute {
        kind: AttributeKind::Derived(expr("1")),
        ..attr("derived", integer(), false)
    };
    let mut schema = schemas();
    schema.declarations = leak(vec![entity("BASE", &[], leak(vec![derived]))]);
    assert_eq!(
        decode(&parse_body("#1=BASE();"), &schema, "test", Limits::default(), &[])
            .err()
            .unwrap()
            .kind,
        ErrorKind::Unsupported
    );
}

#[test]
fn decode_recognizes_checked_width_diagnostics() {
    let width = Expression {
        text: "2",
        span: SourceSpan {
            source: 0,
            start: 10,
            end: 11,
            line: 1,
            column: 11,
        },
    };
    let string = Domain::Builtin {
        kind: Builtin::String,
        width: Some(width),
        fixed: false,
    };
    let mut schema = with_domain(string);
    schema.unsupported = leak(vec![UnsupportedDiagnostic {
        code: "EX2001",
        span: width.span,
        message: "width",
    }]);
    let doc = parse_body("#1=BASE('ab');");
    assert!(decode(&doc, &schema, "test", Limits::default(), &[]).is_ok());
    schema.unsupported = leak(vec![UnsupportedDiagnostic {
        code: "EX2001",
        span: span(),
        message: "elsewhere",
    }]);
    assert_eq!(
        decode(&doc, &schema, "test", Limits::default(), &[])
            .err()
            .unwrap()
            .kind,
        ErrorKind::Unsupported
    );
}

#[test]
fn decode_bounds_are_integer_literals() {
    let list = |lower: &'static str, upper: &'static str| Domain::Aggregate {
        kind: AggregateKind::List,
        bounds: Some((expr(lower), expr(upper))),
        optional: false,
        unique: false,
        element: boxed(integer()),
    };
    assert!(check(list(" 2 ", "?"), "(1,2)").is_ok());
    assert_eq!(
        check(list("2", "?"), "(1)").err().unwrap().kind,
        ErrorKind::Cardinality
    );
    assert!(check(list("0", " +3 (* note *) -- end"), "(1,2,3)").is_ok());
    assert_eq!(
        check(list("0", "3"), "(1,2,3,4)").err().unwrap().kind,
        ErrorKind::Cardinality
    );
    for computed in ["1 + 2", "7 DIV 2", "(3)", "n", "3x", ""] {
        assert_eq!(
            check(list("0", computed), "(1)").err().unwrap().kind,
            ErrorKind::Unsupported,
            "{computed}"
        );
    }
    assert_eq!(
        check(list("0", "99999999999999999999"), "(1)").err().unwrap().kind,
        ErrorKind::InvalidMetadata
    );
    assert_eq!(
        check(list("0", "(* open"), "(1)").err().unwrap().kind,
        ErrorKind::InvalidMetadata
    );
    let array = Domain::Aggregate {
        kind: AggregateKind::Array,
        bounds: None,
        optional: false,
        unique: false,
        element: boxed(integer()),
    };
    assert_eq!(
        check(array, "(1)").err().unwrap().kind,
        ErrorKind::InvalidMetadata
    );
}

#[test]
fn decode_unique_aggregates_compare_values_not_spelling() {
    let numbers = Domain::Aggregate {
        kind: AggregateKind::List,
        bounds: None,
        optional: false,
        unique: true,
        element: boxed(Domain::Builtin {
            kind: Builtin::Number,
            width: None,
            fixed: false,
        }),
    };
    assert!(check(numbers, "(1,2)").is_ok());
    assert_eq!(
        check(numbers, "(1,2,1)").err().unwrap().kind,
        ErrorKind::DuplicateValue
    );
    let reals = [class("2.", 2.0), class("2.5", 2.5), class("25.E-1", 2.5)];
    assert_eq!(
        check_with(numbers, "(2,2.)", &reals).err().unwrap().kind,
        ErrorKind::DuplicateValue
    );
    assert_eq!(
        check_with(numbers, "(2.5,25.E-1)", &reals).err().unwrap().kind,
        ErrorKind::DuplicateValue
    );
    assert!(check_with(numbers, "(2,2.5)", &reals).is_ok());
    assert_eq!(
        check(numbers, "(2,2.)").err().unwrap().kind,
        ErrorKind::Unsupported
    );
    let names = Domain::Aggregate {
        kind: AggregateKind::List,
        bounds: None,
        optional: false,
        unique: true,
        element: boxed(Domain::Enumeration(leak(vec!["RED", "BLUE"]))),
    };
    assert_eq!(
        check(names, "(.RED.,.RED.)").err().unwrap().kind,
        ErrorKind::DuplicateValue
    );
    let texts = Domain::Aggregate {
        kind: AggregateKind::Bag,
        bounds: None,
        optional: false,
        unique: false,
        element: boxed(Domain::Builtin {
            kind: Builtin::String,
            width: None,
            fixed: false,
        }),
    };
    assert!(check(texts, "('a','a')").is_ok());
}

#[test]
fn decode_select_values_by_reference_and_type_tag() {
    let label = Declaration {
        name: "LABEL",
        schema: 0,
        span: span(),
        kind: DeclarationKind::Type {
            domain: Domain::Builtin {
                kind: Builtin::String,
                width: None,
                fixed: false,
            },
            where_rules: &[],
        },
    };
    let choice = Domain::Select(leak(vec![DeclarationId(0), DeclarationId(1)]));
    let schema = SchemaSet {
        schemas: leak(vec![Schema {
            name: "TEST",
            span: span(),
            dependencies: &[],
            exports: &[],
            symbols: leak(vec![
                Symbol {
                    name: "BASE",
                    declaration: DeclarationId(0),
                },
                Symbol {
                    name: "LABEL",
                    declaration: DeclarationId(1),
                },
            ]),
        }]),
        declarations: leak(vec![
            entity("BASE", &[], leak(vec![attr("choice", choice, true)])),
            label,
        ]),
        ..schemas()
    };
    let run = |body: &str| {
        decode(&parse_body(body), &schema, "test", Limits::default(), &[]).map(|d| d.entities().len())
    };
    assert_eq!(run("#1=BASE(#2);#2=BASE($);").ok(), Some(2));
    assert_eq!(run("#1=BASE(LABEL('x'));").ok(), Some(1));
    assert_eq!(
        run("#1=BASE(LABEL(1));").err().unwrap().kind,
        ErrorKind::TypeMismatch
    );
    assert_eq!(
        run("#1=BASE(OTHER('x'));").err().unwrap().kind,
        ErrorKind::TypeMismatch
    );
    assert_eq!(
        run("#1=BASE((1,2));").err().unwrap().kind,
        ErrorKind::Unsupported
    );
}

#[test]
fn decode_reachable_selects_the_reference_closure() {
    let doc = parse_body("#1=BASE(1,#2);#2=BASE(2,$);#3=UNKNOWN();");
    let set = schemas();
    let root = EntityId::new(1).unwrap();
    let decoded = decode_reachable(&doc, &set, "test", &[root], Limits::default(), &[]).unwrap();
    assert_eq!(
        decoded.entities().iter().map(|e| e.id.get()).collect::<Vec<_>>(),
        [1, 2]
    );
    assert_eq!(
        decode(&doc, &set, "test", Limits::default(), &[])
            .err()
            .unwrap()
            .kind,
        ErrorKind::UnknownEntity
    );
    assert_eq!(
        decode_reachable(
            &doc,
            &set,
            "test",
            &[EntityId::new(9).unwrap()],
            Limits::default(),
            &[],
        )
        .err()
        .unwrap()
        .kind,
        ErrorKind::MissingReference
    );
}

#[test]
fn decode_profiles_accept_declared_slots_and_links_only() {
    let doc = parse_body("#1=BASE(*,#2);#2=UNKNOWN();");
    let set = schemas();
    let root = [EntityId::new(1).unwrap()];
    let number = OmittedSlot {
        entity: DeclarationId(0),
        attribute: "number",
    };
    let next = LinkSlot {
        entity: DeclarationId(0),
        attribute: "next",
    };
    let decoded = decode_reachable_profile_with_links(
        &doc,
        &set,
        "test",
        &root,
        &[number],
        &[next],
        Limits::default(),
        &[],
    )
    .unwrap();
    assert_eq!(decoded.entities().len(), 1);
    assert_eq!(
        decode_reachable_profile(&doc, &set, "test", &root, &[number], Limits::default(), &[])
            .err()
            .unwrap()
            .kind,
        ErrorKind::UnknownEntity
    );
    assert_eq!(
        decode_reachable(&doc, &set, "test", &root, Limits::default(), &[])
            .err()
            .unwrap()
            .kind,
        ErrorKind::UnknownEntity
    );
    let missing = OmittedSlot {
        entity: DeclarationId(0),
        attribute: "absent",
    };
    assert_eq!(
        decode_reachable_profile(&doc, &set, "test", &root, &[missing], Limits::default(), &[])
            .err()
            .unwrap()
            .kind,
        ErrorKind::InvalidMetadata
    );
    assert_eq!(
        decode_reachable_profile(
            &doc,
            &set,
            "test",
            &root,
            &[number, number],
            Limits::default(),
            &[],
        )
        .err()
        .unwrap()
        .kind,
        ErrorKind::InvalidMetadata
    );
    let plain = parse_body("#1=BASE(1,$);");
    assert_eq!(
        decode_reachable_profile(&plain, &set, "test", &root, &[number], Limits::default(), &[])
            .err()
            .unwrap()
            .kind,
        ErrorKind::TypeMismatch
    );
}

#[test]
fn decode_complex_instances_need_connected_canonical_components() {
    let a = entity("A", &[], leak(vec![attr("x", integer(), false)]));
    let b = entity("B", leak(vec![DeclarationId(0)]), leak(vec![attr("y", integer(), false)]));
    let c = entity("C", leak(vec![DeclarationId(0)]), &[]);
    let d = entity("D", &[], &[]);
    let symbols = ["A", "B", "C", "D"]
        .iter()
        .enumerate()
        .map(|(i, name)| Symbol {
            name: *name,
            declaration: DeclarationId(i),
        })
        .collect::<Vec<_>>();
    let set = SchemaSet {
        schemas: leak(vec![Schema {
            name: "TEST",
            span: span(),
            dependencies: &[],
            exports: &[],
            symbols: leak(symbols),
        }]),
        declarations: leak(vec![a, b, c, d]),
        ..schemas()
    };
    let run = |body: &str| {
        decode(&parse_body(body), &set, "test", Limits::default(), &[]).map(|d| d.entities().len())
    };
    let doc = parse_body("#1=(A(1)B(2)C());");
    let decoded = decode(&doc, &set, "test", Limits::default(), &[]).unwrap();
    let view = &decoded.entities()[0];
    assert_eq!(view.declaration, None);
    assert_eq!(view.types, [DeclarationId(0), DeclarationId(1), DeclarationId(2)]);
    assert_eq!(view.attributes.len(), 2);
    for (body, expected) in [
        ("#1=(B(2)A(1)C());", ErrorKind::ComplexMapping),
        ("#1=(B(2)C());", ErrorKind::ComplexMapping),
        ("#1=(A(1)B(2));", ErrorKind::ComplexMapping),
        ("#1=(A(1)D());", ErrorKind::Unsupported),
    ] {
        assert_eq!(run(body).err().unwrap().kind, expected, "{body}");
    }
}

#[test]
fn decode_error_description_names_kind_and_message() {
    let result = error("#1=BASE(1);");
    assert_eq!(
        result.describe(),
        "AttributeCount: physical parameter count differs from explicit attribute count"
    );
}

#[test]
fn decode_errors_print_kind_and_message() {
    let e = Error {
        kind: ErrorKind::TypeMismatch,
        entity: None,
        attribute: None,
        source: None,
        message: "value does not match domain",
    };
    assert_eq!(e.describe(), "TypeMismatch: value does not match domain");
}

#[derive(Debug)]
struct Shape;
impl tessstep::schema::EntityBinding for Shape {
    const DECLARATION: DeclarationId = DeclarationId(0);
}

#[test]
fn entity_refs_compare_by_occurrence() {
    let a: tessstep::schema::EntityRef<Shape> = tessstep::schema::EntityRef::new(7);
    let b: tessstep::schema::EntityRef<Shape> = tessstep::schema::EntityRef::new(7);
    let c: tessstep::schema::EntityRef<Shape> = tessstep::schema::EntityRef::new(8);
    assert_eq!(a, b);
    assert_ne!(a, c);
    assert_eq!(a.id(), 7);
    assert!(format!("{a:?}").contains('7'));
}

#[test]
fn decode_accepts_a_document_without_instances() {
    let doc = parse_body("");
    let set = schemas();
    let decoded = decode(&doc, &set, "TEST", Limits::default(), &[]).unwrap();
    assert_eq!(decoded.entities().len(), 0);
}

use tessstep::diagnostic::{Diagnostic, DiagnosticCode, Severity};
use tessstep::limits::ParseLimits;
use tessstep::model::{parse, Document, ReferenceStatus};
use tessstep::value::{EntityId, Occurrence};

fn header() -> &'static str {
    "ISO-10303-21;HEADER;FILE_DESCRIPTION(('empty'),'2;1');FILE_NAME('','',(''),(''),'','','');FILE_SCHEMA(('TEST'));ENDSEC;"
}
fn file(body: &str) -> String {
    format!("{}DATA;{body}ENDSEC;END-ISO-10303-21;", header())
}
fn parse_text(text: &str) -> Result<Document, Diagnostic> {
    parse(text.as_bytes().to_vec(), ParseLimits::default())
}
fn extended() -> String {
    format!(
        "{}ANCHOR;<part>=#1;<unit>=@2{{kind:.MM.}};ENDSEC;REFERENCE;#3=<units.step#unit>;@2=<values.step>;ENDSEC;DATA;#1=NODE(@2,#3,#CONSTANT,@VALUE);ENDSEC;END-ISO-10303-21;SIGNATURE TWE= ENDSEC;",
        header()
    )
}
fn multiple() -> String {
    format!(
        "{}DATA;#1=A(#2);ENDSEC;DATA;#2=B(#1);ENDSEC;END-ISO-10303-21;",
        header()
    )
}
#[test]
fn resolves_forward_backward_self_and_cyclic_references() {
    let doc = parse_text(&file("#5=A(#2,#5);#2=B(#5);")).unwrap();
    assert_eq!(
        doc.entities()
            .as_slice()
            .iter()
            .map(|e| e.id.get())
            .collect::<Vec<_>>(),
        [5, 2]
    );
    assert!(doc
        .references()
        .iter()
        .all(|r| r.status == ReferenceStatus::Local));
    assert!(doc.diagnostics().is_empty());
    let counts = doc.entities().counts_by_type();
    assert_eq!(counts.iter().find(|(name, _)| name == "A").unwrap().1, 1);
}
#[test]
fn unresolved_uses_retain_owner_and_exact_parameter_span() {
    let input = file("#7=A((#900,TYPE(#901)),#900);");
    let doc = parse_text(&input).unwrap();
    let references = doc.references();
    assert_eq!(references.len(), 3);
    for usage in &references {
        assert_eq!(usage.owner, EntityId::new(7));
        assert_eq!(usage.status, ReferenceStatus::Missing);
        assert_eq!(
            &input[usage.source.start.offset as usize..usage.source.end.offset as usize],
            usage.target.describe()
        );
    }
    assert_eq!(doc.diagnostics().len(), 3);
}
#[test]
fn duplicate_ids_never_overwrite_even_across_sections_or_namespaces() {
    assert_eq!(
        parse_text(&file("#1=A();#01=B();")).unwrap_err().code,
        DiagnosticCode::DuplicateId
    );
    let extended = extended();
    assert_eq!(
        parse_text(&extended.replace("#1=NODE", "#2=NODE"))
            .unwrap_err()
            .code,
        DiagnosticCode::DuplicateId
    );
    assert_eq!(
        parse_text(&extended.replace("#3=<", "#2=<"))
            .unwrap_err()
            .code,
        DiagnosticCode::DuplicateId
    );
    assert_eq!(
        parse_text(&extended.replace("<unit>=@2", "<part>=@2"))
            .unwrap_err()
            .code,
        DiagnosticCode::DuplicateAnchor
    );
    assert_eq!(
        parse_text(&multiple().replace("#2=B", "#1=B"))
            .unwrap_err()
            .code,
        DiagnosticCode::DuplicateId
    );
}
#[test]
fn external_references_and_signatures_are_not_trusted() {
    let doc = parse_text(&extended()).unwrap();
    assert_eq!(doc.signatures()[0].base64, "TWE=");
    assert_eq!(
        doc.references()
            .iter()
            .filter(|r| r.status == ReferenceStatus::External)
            .count(),
        3
    );
    assert_eq!(
        doc.diagnostics()
            .iter()
            .filter(|d| d.code == DiagnosticCode::SignatureUnverified)
            .count(),
        1
    );
    assert_eq!(
        doc.diagnostics()
            .iter()
            .filter(|d| d.code == DiagnosticCode::ExternalReference)
            .count(),
        2
    );
    assert!(doc
        .diagnostics()
        .iter()
        .all(|d| d.severity == Severity::Warning));
}
#[test]
fn multiple_sections_and_complex_type_counts() {
    let doc = parse_text(&multiple()).unwrap();
    assert_eq!(doc.data_sections()[0].entities, 0..1);
    assert_eq!(doc.data_sections()[1].entities, 1..2);
    assert!(doc.diagnostics().is_empty());
    let doc = parse_text(&file("#1=(A() B());#2=(A() C());")).unwrap();
    assert_eq!(doc.entities().len(), 2);
    assert_eq!(
        doc.entities()
            .counts_by_type()
            .into_iter()
            .map(|(name, count)| (name, count))
            .collect::<Vec<_>>(),
        [("A".to_string(), 2), ("B".to_string(), 1), ("C".to_string(), 1)]
    );
}
#[test]
fn huge_ids_remain_sparse() {
    let doc = parse_text(&file("#18446744073709551615=A();")).unwrap();
    assert_eq!(doc.entities().len(), 1);
    assert!(doc
        .entities()
        .get(EntityId::new(u64::MAX).unwrap())
        .is_some());
    assert!(doc.entities().get(EntityId::new(1).unwrap()).is_none());
}
#[test]
fn generated_reference_graphs_are_deterministic_and_complete() {
    for size in [1, 2, 13, 128, 1024] {
        let mut body = String::new();
        for id in (1..=size).rev() {
            body.push_str(&format!("#{id}=NODE((#{},#{}));", id % size + 1, size + 1));
        }
        let input = file(&body);
        let doc = parse_text(&input).unwrap();
        assert_eq!(doc.entities().len(), size);
        assert_eq!(doc.diagnostics().len(), size);
        assert_eq!(doc.references().len(), 2 * size);
        assert_eq!(doc, parse_text(&input).unwrap());
    }
}

#[test]
fn header_lookup_finds_the_first_record_of_a_name() {
    let doc = parse_text(&file("").replace("ENDSEC;DATA;", "VENDOR('a');VENDOR('b');ENDSEC;DATA;")).unwrap();
    let vendor = doc.header("VENDOR").unwrap();
    assert_eq!(vendor.source.start.offset as usize, header().find("ENDSEC;").unwrap());
    assert_eq!(doc.headers().len(), 5);
    assert!(doc.header("MISSING").is_none());
    assert_eq!(doc.header("FILE_SCHEMA").unwrap().name, "FILE_SCHEMA");
}
#[test]
fn counts_order_names_by_bytes_and_count_complex_components() {
    let doc = parse_text(&file("#1=ZED();#2=(B() ALPHA());#3=B();#4=A_B();")).unwrap();
    let counts = doc.entities().counts_by_type();
    let names: Vec<_> = counts.iter().map(|(n, c)| (n.as_str(), *c)).collect();
    assert_eq!(names, [("ALPHA", 1), ("A_B", 1), ("B", 2), ("ZED", 1)]);
}
#[test]
fn references_are_ordered_by_offset_across_sections() {
    let text = format!(
        "{}DATA(#9);#1=A(#2);ENDSEC;DATA;#2=B(#1,@4);ENDSEC;END-ISO-10303-21;",
        header()
    );
    let doc = parse_text(&text).unwrap();
    let references = doc.references();
    let offsets: Vec<_> = references.iter().map(|r| r.source.start.offset).collect();
    let mut sorted = offsets.clone();
    sorted.sort();
    assert_eq!(offsets, sorted);
    assert_eq!(references.len(), 4);
    assert_eq!(references[0].owner, None);
    assert_eq!(references[0].status, ReferenceStatus::Missing);
    assert_eq!(references[1].owner, EntityId::new(1));
    assert_eq!(references[1].status, ReferenceStatus::Local);
    assert_eq!(references[3].status, ReferenceStatus::Missing);
    let diagnostics = doc.diagnostics();
    assert_eq!(diagnostics.len(), 2);
    assert_eq!(diagnostics[0].message, "unresolved reference #9");
    assert_eq!(diagnostics[0].entity, None);
    assert_eq!(diagnostics[1].message, "unresolved reference @4");
    assert_eq!(diagnostics[1].entity, EntityId::new(2));
    assert_eq!(diagnostics[1].code, DiagnosticCode::MissingReference);
}
#[test]
fn duplicate_id_message_names_the_first_declaration() {
    let error = parse_text(&file("#1=A();\n#1=B();")).unwrap_err();
    assert_eq!(error.code, DiagnosticCode::DuplicateId);
    assert_eq!(error.entity, EntityId::new(1));
    assert!(error.message.starts_with("duplicate occurrence 1; first declared at 1:"));
}
#[test]
fn external_reference_warnings_name_the_occurrence() {
    let doc = parse_text(&extended()).unwrap();
    let externals: Vec<_> = doc.external_references().iter().map(|x| x.id.describe()).collect();
    assert_eq!(externals, ["#3", "@2"]);
    let messages: Vec<_> = doc
        .diagnostics()
        .into_iter()
        .filter(|d| d.code == DiagnosticCode::ExternalReference)
        .map(|d| d.message)
        .collect();
    assert!(messages.contains(&"@2 is external; resource resolution has not been performed".to_string()));
    assert_eq!(doc.anchors().len(), 2);
    assert_eq!(doc.anchors()[1].tags[0].0, "kind");
}
#[test]
fn nesting_cap_is_refused_before_parsing() {
    let limits = ParseLimits { max_nesting_depth: 129, ..Default::default() };
    let error = parse(file("").into_bytes(), limits).unwrap_err();
    assert_eq!(error.code, DiagnosticCode::LimitExceeded);
}

#[test]
fn occurrences_and_diagnostics_print_in_their_documented_forms() {
    let entity = EntityId::new(7).unwrap();
    assert_eq!(entity.describe(), "#7");
    assert_eq!(Occurrence::Entity(EntityId::new(120).unwrap()).describe(), "#120");
    assert_eq!(
        Occurrence::Value(tessstep::value::ValueId::new(2).unwrap()).describe(),
        "@2"
    );
    let error = parse_text(&file("#1=A();#01=B();")).unwrap_err();
    let printed = error.describe();
    assert!(printed.starts_with(&format!("{} Error at ", error.code.as_str())));
    assert!(printed.ends_with(&format!(": {}", error.message)));
    assert!(printed.contains(&format!(
        " at {}:{}: ",
        error.source_span.start.line, error.source_span.start.column
    )));
}

#[test]
fn parsed_entities_are_spans_of_the_input_in_file_order() {
    let text = file("#2=A(1);#1=B('x');");
    let doc = parse_text(&text).unwrap();
    let entities = doc.entities().as_slice();
    assert_eq!(entities.len(), 2);
    let spans: Vec<(usize, usize)> = entities
        .iter()
        .map(|e| (e.source.start.offset as usize, e.source.end.offset as usize))
        .collect();
    assert!(spans[0].1 <= spans[1].0);
    assert!(spans[1].1 <= text.len());
    assert!(text[spans[0].0..spans[0].1].starts_with("#2"));
    assert!(text[spans[1].0..spans[1].1].starts_with("#1"));
}

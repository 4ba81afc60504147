use tessstep::product::{
    Action, Context, ContextId, Definition, DefinitionId, Dimension, Error, Expansion,
    ExpansionLimits, Formation, FormationId, ItemId, Model, Occurrence, OccurrenceId,
    OccurrencePlacement, Parts, Placement, Planned, Product, ProductId, Relationship,
    RelationshipId, Representation, RepresentationId, ResolvedRelationship, Shape, ShapeBinding,
    ShapeId, ShapeTarget, Uncertainty, Unit, Units,
};

fn parts() -> Parts {
    Parts {
        products: vec![Product {
            id: ProductId(u64::MAX),
            identifier: "part".into(),
            name: "Part".into(),
        }],
        formations: vec![Formation {
            id: FormationId(2),
            product: ProductId(u64::MAX),
            identifier: "v1".into(),
        }],
        definitions: (3..6)
            .map(|i| Definition {
                id: DefinitionId(i),
                formation: FormationId(2),
                identifier: "design".into(),
            })
            .collect(),
        occurrences: vec![
            Occurrence {
                id: OccurrenceId(6),
                identifier: "a".into(),
                parent: DefinitionId(3),
                child: DefinitionId(4),
            },
            Occurrence {
                id: OccurrenceId(7),
                identifier: "b".into(),
                parent: DefinitionId(3),
                child: DefinitionId(4),
            },
            Occurrence {
                id: OccurrenceId(8),
                identifier: "c".into(),
                parent: DefinitionId(4),
                child: DefinitionId(5),
            },
        ],
        ..Parts::default()
    }
}
fn units(scale: f64) -> Units {
    let length = Unit::new(Dimension::Length, scale.to_bits()).unwrap();
    let plane_angle = Unit::new(Dimension::PlaneAngle, 1.0f64.to_bits()).unwrap();
    let solid_angle = Unit::new(Dimension::SolidAngle, 1.0f64.to_bits()).unwrap();
    Units {
        length,
        plane_angle,
        solid_angle,
    }
}

#[test]
fn independent_product_graph_preserves_reuse_and_rejects_cycles() {
    let input = parts();
    let model = Model::new(input.clone(), 1000).unwrap();
    assert_eq!(model.roots(), &[DefinitionId(3)]);
    assert_eq!(model.parts().occurrences.len(), 3);
    assert_eq!(Model::new(input.clone(), 0), Err(Error::ResourceLimit));
    let mut cycle = input.clone();
    cycle.occurrences[2].child = DefinitionId(3);
    assert_eq!(Model::new(cycle, 1000), Err(Error::Cycle));
    let mut missing = input.clone();
    missing.definitions[0].formation = FormationId(999);
    assert_eq!(Model::new(missing, 1000), Err(Error::MissingLink));
    let mut duplicate = input;
    duplicate.occurrences[1].id = OccurrenceId(6);
    assert_eq!(Model::new(duplicate, 1000), Err(Error::DuplicateId));
}

#[test]
fn product_graph_is_iterative_and_budgeted() {
    let mut input = parts();
    input.definitions.clear();
    input.occurrences.clear();
    for i in 0..10_000 {
        input.definitions.push(Definition {
            id: DefinitionId(i),
            formation: FormationId(2),
            identifier: String::new(),
        });
        if i > 0 {
            input.occurrences.push(Occurrence {
                id: OccurrenceId(i),
                identifier: String::new(),
                parent: DefinitionId(i - 1),
                child: DefinitionId(i),
            });
        }
    }
    assert_eq!(Model::new(input.clone(), 100), Err(Error::ResourceLimit));
    assert_eq!(
        Model::new(input, 1_000_000).unwrap().roots(),
        &[DefinitionId(0)]
    );
}

#[test]
fn units_hold_positive_finite_scales_and_matching_dimensions() {
    let mm = Unit::new(Dimension::Length, 0.001f64.to_bits()).unwrap();
    assert_eq!(mm.dimension(), Dimension::Length);
    assert_eq!(f64::from_bits(mm.scale()), 0.001);
    assert!(Unit::new(Dimension::Length, f64::MAX.to_bits()).is_ok());
    assert!(Unit::new(Dimension::Length, f64::from_bits(1).to_bits()).is_ok());
    for scale in [0., -0., -1., f64::INFINITY, f64::NEG_INFINITY, f64::NAN] {
        assert_eq!(
            Unit::new(Dimension::Length, scale.to_bits()),
            Err(Error::InvalidUnit)
        );
    }
    let mut input = parts();
    input.contexts.push(Context {
        id: ContextId(1),
        units: Units {
            length: mm,
            plane_angle: mm,
            solid_angle: mm,
        },
    });
    assert_eq!(Model::new(input, 1000), Err(Error::InvalidUnit));
    let mut input = parts();
    input.contexts.push(Context {
        id: ContextId(1),
        units: units(0.001),
    });
    assert!(Model::new(input, 1000).is_ok());
}

#[test]
fn representations_relationships_and_uncertainties_are_checked() {
    let mut input = parts();
    input.contexts.push(Context {
        id: ContextId(1),
        units: units(0.001),
    });
    input.representations = vec![
        Representation {
            id: RepresentationId(10),
            name: "a".into(),
            context: ContextId(1),
            items: vec![ItemId(20), ItemId(21)],
        },
        Representation {
            id: RepresentationId(11),
            name: "b".into(),
            context: ContextId(1),
            items: vec![ItemId(22)],
        },
    ];
    input.item_dependencies = vec![(ItemId(21), ItemId(23))];
    input.relationships = vec![Relationship {
        id: RelationshipId(30),
        rep_1: RepresentationId(10),
        rep_2: RepresentationId(11),
        transform: None,
        operator: Some(ItemId(20)),
    }];
    input.relationship_transforms = vec![ResolvedRelationship {
        relationship: RelationshipId(30),
        invertible: true,
    }];
    let model = Model::new(input.clone(), 1000).unwrap();
    assert_eq!(
        model.items_in_context(ContextId(1)).unwrap(),
        [ItemId(20), ItemId(21), ItemId(22), ItemId(23)]
    );
    assert!(model.items_in_context(ContextId(2)).is_none());
    let mut singular = input.clone();
    singular.relationship_transforms[0].invertible = false;
    assert_eq!(Model::new(singular, 1000), Err(Error::InvalidTransform));
    let mut repeated = input.clone();
    repeated.representations[1].items.push(ItemId(22));
    assert_eq!(Model::new(repeated, 1000), Err(Error::DuplicateId));
    let mut associated = input.clone();
    associated.associations = vec![RelationshipId(30)];
    assert_eq!(Model::new(associated, 1000), Err(Error::InvalidTransform));
    let mut unresolved = input.clone();
    unresolved.relationships[0].operator = None;
    assert_eq!(Model::new(unresolved, 1000), Err(Error::InvalidTransform));
    let mut uncertain = input.clone();
    uncertain.uncertainties = vec![Uncertainty {
        source: 40,
        context: ContextId(1),
        dimension: Dimension::Length,
        value_si: 0.0f64.to_bits(),
        name: "distance_accuracy_value".into(),
        description: None,
    }];
    assert_eq!(Model::new(uncertain.clone(), 1000), Err(Error::NumericRange));
    uncertain.uncertainties[0].value_si = 1e-6f64.to_bits();
    assert!(Model::new(uncertain.clone(), 1000).is_ok());
    uncertain.uncertainties[0].context = ContextId(9);
    assert_eq!(Model::new(uncertain, 1000), Err(Error::MissingLink));
}

fn assembly_parts() -> Parts {
    let mut input = parts();
    input.contexts.push(Context {
        id: ContextId(1),
        units: units(0.001),
    });
    input.representations = (10..13)
        .map(|i| Representation {
            id: RepresentationId(i),
            name: String::new(),
            context: ContextId(1),
            items: vec![],
        })
        .collect();
    input.shapes = (3..6)
        .map(|i| Shape {
            id: ShapeId(i),
            target: ShapeTarget::Definition(DefinitionId(i)),
        })
        .collect();
    input.shape_bindings = (3..6)
        .map(|i| ShapeBinding {
            shape: ShapeId(i),
            representation: RepresentationId(i + 7),
        })
        .collect();
    let relationship = |id: u64, child: u64, parent: u64| Relationship {
        id: RelationshipId(id),
        rep_1: RepresentationId(child),
        rep_2: RepresentationId(parent),
        transform: None,
        operator: Some(ItemId(id)),
    };
    input.relationships = vec![
        relationship(30, 11, 10),
        relationship(31, 11, 10),
        relationship(32, 12, 11),
    ];
    input.placements = [(6, 30), (7, 31), (8, 32)]
        .iter()
        .map(|&(o, r)| OccurrencePlacement {
            occurrence: OccurrenceId(o),
            relationship: RelationshipId(r),
        })
        .collect();
    input.relationship_transforms = (30..33)
        .map(|r| ResolvedRelationship {
            relationship: RelationshipId(r),
            invertible: true,
        })
        .collect();
    input
}

fn run(
    model: &Model,
    root: u64,
    representation: u64,
    selections: &[(OccurrenceId, RelationshipId)],
    limits: ExpansionLimits,
) -> Result<Vec<Planned>, Error> {
    let mut expansion = Expansion::start(
        model,
        DefinitionId(root),
        RepresentationId(representation),
        selections,
        limits,
    )?;
    loop {
        if expansion.step(true)? == Action::Done {
            return Ok(expansion.instances().to_vec());
        }
    }
}

#[test]
fn expansion_places_every_instance_after_its_parent() {
    let model = Model::new(assembly_parts(), 10_000).unwrap();
    let plan = run(&model, 3, 10, &[], ExpansionLimits::default()).unwrap();
    let summary: Vec<_> = plan
        .iter()
        .map(|p| (p.parent, p.occurrence.map(|o| o.0), p.definition.0, p.representation.0))
        .collect();
    assert_eq!(
        summary,
        [
            (None, None, 3, 10),
            (Some(0), Some(6), 4, 11),
            (Some(1), Some(8), 5, 12),
            (Some(0), Some(7), 4, 11),
            (Some(3), Some(8), 5, 12),
        ]
    );
    assert_eq!(
        plan[1].placement,
        Some(Placement {
            relationship: RelationshipId(30),
            reversed: false,
        })
    );
    assert_eq!(
        run(&model, 3, 11, &[], ExpansionLimits::default()),
        Err(Error::MissingLink)
    );
    let tight = ExpansionLimits {
        max_instances: 3,
        ..ExpansionLimits::default()
    };
    assert_eq!(run(&model, 3, 10, &[], tight), Err(Error::ResourceLimit));
    let shallow = ExpansionLimits {
        max_depth: 2,
        ..ExpansionLimits::default()
    };
    assert_eq!(run(&model, 3, 10, &[], shallow), Err(Error::ResourceLimit));
    let plan = run(&model, 4, 11, &[], ExpansionLimits::default()).unwrap();
    assert_eq!(plan.len(), 2);
}

#[test]
fn expansion_refuses_missing_ambiguous_and_unselected_placements() {
    let mut input = assembly_parts();
    input.placements.push(OccurrencePlacement {
        occurrence: OccurrenceId(6),
        relationship: RelationshipId(31),
    });
    let model = Model::new(input.clone(), 10_000).unwrap();
    assert_eq!(
        run(&model, 3, 10, &[], ExpansionLimits::default()),
        Err(Error::AmbiguousPlacement)
    );
    let selected = [(OccurrenceId(6), RelationshipId(30))];
    assert_eq!(
        run(&model, 3, 10, &selected, ExpansionLimits::default())
            .unwrap()
            .len(),
        5
    );
    let wrong = [(OccurrenceId(6), RelationshipId(32))];
    assert_eq!(
        run(&model, 3, 10, &wrong, ExpansionLimits::default()),
        Err(Error::MissingLink)
    );
    let mut unplaced = assembly_parts();
    unplaced.placements.pop();
    let model = Model::new(unplaced, 10_000).unwrap();
    assert_eq!(
        run(&model, 3, 10, &[], ExpansionLimits::default()),
        Err(Error::MissingPlacement)
    );
}

#[test]
fn expansion_reports_failed_placement_maps() {
    let model = Model::new(assembly_parts(), 10_000).unwrap();
    let mut expansion = Expansion::start(
        &model,
        DefinitionId(3),
        RepresentationId(10),
        &[],
        ExpansionLimits::default(),
    )
    .unwrap();
    assert!(matches!(expansion.step(true), Ok(Action::CheckWorld(_))));
    assert_eq!(expansion.step(false), Err(Error::InvalidTransform));
    let mut expansion = Expansion::start(
        &model,
        DefinitionId(3),
        RepresentationId(10),
        &[],
        ExpansionLimits::default(),
    )
    .unwrap();
    assert!(matches!(expansion.step(true), Ok(Action::CheckWorld(_))));
    assert!(matches!(expansion.step(true), Ok(Action::Compose(_))));
    assert_eq!(expansion.step(false), Err(Error::InvalidTransform));
}

#[test]
fn product_errors_print_their_names() {
    assert_eq!(Error::Cycle.describe(), "Cycle");
    assert_eq!(Error::MissingPlacement.describe(), "MissingPlacement");
}

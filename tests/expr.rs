use upsert::expr::OptimizedMirRelationExpr;
use upsert::sinks::{CsrConnection, KafkaSinkConnectionRetention, KafkaSinkFormat, SinkAsOf, SinkEnvelope};

#[test]
fn optimized_expr_wraps_and_unwraps() {
    let mut e = OptimizedMirRelationExpr::declare_optimized(vec![1u8, 2]);
    assert_eq!(e.as_inner(), &vec![1u8, 2]);
    e.as_inner_mut().push(3);
    assert_eq!(e.as_inner(), &vec![1u8, 2, 3]);
    assert_eq!(e.into_inner(), vec![1u8, 2, 3]);
}

#[test]
fn sink_descriptions_compare_by_fields() {
    assert_ne!(SinkEnvelope::Debezium, SinkEnvelope::Upsert);
    let r = KafkaSinkConnectionRetention::default();
    assert_eq!(r, KafkaSinkConnectionRetention { duration: None, bytes: None });
}

#[test]
fn sink_as_of_downgrade_moves_forward_only() {
    let mut a = SinkAsOf { frontier: Some(5), strict: false };
    a.downgrade(Some(3));
    assert_eq!(a, SinkAsOf { frontier: Some(5), strict: false });
    a.downgrade(Some(8));
    assert_eq!(a, SinkAsOf { frontier: Some(8), strict: true });
    a.downgrade(None);
    assert_eq!(a, SinkAsOf { frontier: None, strict: true });
    let mut b = SinkAsOf { frontier: None, strict: false };
    b.downgrade(Some(1));
    assert_eq!(b, SinkAsOf { frontier: None, strict: false });
}

#[test]
fn optimized_expr_derefs_to_inner() {
    let e = OptimizedMirRelationExpr::declare_optimized(vec![4u8, 5]);
    assert_eq!(e.len(), 2);
    assert_eq!(*e, vec![4u8, 5]);
}

#[test]
fn kafka_sink_formats_compare_by_fields() {
    let avro = KafkaSinkFormat::Avro {
        key_schema: None,
        value_schema: "{}".to_string(),
        csr_connection: CsrConnection { url: "http://registry".to_string() },
    };
    assert_eq!(avro.clone(), avro);
    assert_ne!(avro, KafkaSinkFormat::Json);
}

//! Plain descriptions of sinks that carry upsert output out.
use crate::model::frontier_le;
use vstd::prelude::*;

verus! {

/// The marker of sink descriptions whose storage metadata is not yet filled in.
#[derive(Clone, Debug, PartialEq, Eq)]
pub struct MetadataUnfilled;

/// The marker of sink descriptions whose storage metadata is filled in.
#[derive(Clone, Debug, PartialEq, Eq)]
pub struct MetadataFilled;

/// How a sink frames its changes.
#[derive(Clone, Copy, Debug, PartialEq, Eq, Structural)]
pub enum SinkEnvelope {
    Debezium,
    Upsert,
}

/// The frontier that a sink reads its input as of. Times are totally
/// ordered: `Some(t)` is the frontier of the times from `t` on, `None` the
/// empty frontier.
#[derive(Clone, Copy, Debug, PartialEq, Eq, Structural)]
pub struct SinkAsOf {
    pub frontier: Option<u64>,
    /// Whether the snapshot at `frontier` is left out.
    pub strict: bool,
}

impl SinkAsOf {
    /// Forwards the frontier to `other_since` where that is at or beyond it,
    /// and then never reads the snapshot; otherwise leaves it as it is.
    pub fn downgrade(&mut self, other_since: Option<u64>)
        ensures
            frontier_le(old(self).frontier, other_since) ==> *final(self) == (SinkAsOf {
                frontier: other_since,
                strict: true,
            }),
            !frontier_le(old(self).frontier, other_since) ==> *final(self) == *old(self),
    {
        let advance = match (self.frontier, other_since) {
            (_, None) => true,
            (None, Some(_)) => false,
            (Some(x), Some(y)) => x <= y,
        };
        if advance {
            self.frontier = other_since;
            self.strict = true;
        }
    }
}

/// Where a Kafka sink records its progress.
#[derive(Clone, Debug, PartialEq, Eq)]
pub struct KafkaSinkProgressConnection {
    pub topic: String,
}

/// The schema ids that a sink published.
#[derive(Clone, Copy, Debug, PartialEq, Eq, Structural)]
pub struct PublishedSchemaInfo {
    pub key_schema_id: Option<i32>,
    pub value_schema_id: i32,
}

/// How a Kafka sink keeps its output consistent.
#[derive(Clone, Debug, PartialEq, Eq)]
pub enum KafkaConsistencyConfig {
    Progress { topic: String },
}

/// The schema registry that an Avro sink publishes its schemas to.
#[derive(Clone, Debug, PartialEq, Eq)]
pub struct CsrConnection {
    /// The registry's URL.
    pub url: String,
}

/// How a Kafka sink encodes its records.
#[derive(Clone, Debug, PartialEq, Eq)]
pub enum KafkaSinkFormat {
    Avro { key_schema: Option<String>, value_schema: String, csr_connection: CsrConnection },
    Json,
}

/// How long, and how much of, a Kafka sink's topic is retained.
#[derive(Clone, Copy, Debug, Default, PartialEq, Eq, Structural)]
pub struct KafkaSinkConnectionRetention {
    pub duration: Option<i64>,
    pub bytes: Option<i64>,
}

} // verus!

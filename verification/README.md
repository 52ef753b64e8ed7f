# otel_metrics

Attribute-keyed storage for metric measurements, verified with Verus.

An instrument measures values, each with a list of attributes. A value map keeps one tracker for
each attribute set, up to a cardinality limit; what goes beyond the limit is counted under one
overflow set. A collection turns the trackers into points: it reads them all; or it reads those that
were updated since the last collection and evicts the sets that were not; or it drains them. A handle that was bound to an attribute set leads to its tracker without a
lookup, and falls back to the attributes once the tracker has been evicted.

The contracts speak of one operation at a time on a map that is borrowed exclusively. Threads share a
map behind a lock.

- `src/key_value.rs`, `src/canonical.rs`, `src/encoding.rs`, `src/hashed_attributes.rs`: attributes,
  their canonical form, the bytes that are hashed, and sets that carry their hash.
- `src/number.rs`, `src/aggregator.rs`, `src/tracker_pool.rs`: numbers, aggregators, and the pool of
  trackers with their holders.
- `src/shard.rs`, `src/listing.rs`, `src/map_view.rs`, `src/sharded_map.rs`: the map from attribute
  sets to trackers.
- `src/collect.rs`, `src/value_map.rs`: what is collected, and the storage of an instrument.
- `src/laws.rs`: what holds of the operations taken together.
- `src/histogram.rs`: the histogram instrument and its bound form.
- `app/`: locks, floating-point numbers and debug output.

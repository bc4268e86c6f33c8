//! A minimal model of the streaming plan node that scans an index: enough
//! structure to build the node, read its table name and reach its logical
//! counterpart.

use vstd::prelude::*;

verus! {

/// Identifier a plan-node context hands out, one per node.
#[derive(Debug, Clone, PartialEq, Eq)]
pub struct PlanNodeId(pub i32);

/// Hands out fresh plan-node ids.
pub struct OptimizerContext {
    pub next_id: i32,
}

impl OptimizerContext {
    pub fn new() -> (r: OptimizerContext)
        ensures
            r.next_id == 0,
    {
        OptimizerContext { next_id: 0 }
    }

    /// The next unused id; each call returns a larger one.
    pub fn next_plan_node_id(&mut self) -> (r: PlanNodeId)
        requires
            old(self).next_id < i32::MAX,
        ensures
            r.0 == old(self).next_id,
            final(self).next_id == old(self).next_id + 1,
    {
        let id = self.next_id;
        self.next_id = self.next_id + 1;
        PlanNodeId(id)
    }
}

/// One column of a schema.
#[derive(Debug, PartialEq, Eq)]
pub struct Field {
    pub name: String,
    pub data_type: crate::data_type::ScalarType,
}

#[derive(Debug, PartialEq, Eq)]
pub struct Schema {
    pub fields: Vec<Field>,
}

impl Schema {
    /// A field-for-field copy of the schema.
    pub fn duplicate(&self) -> (r: Schema)
        ensures
            r.fields@ == self.fields@,
    {
        let mut fields: Vec<Field> = Vec::new();
        let mut k: usize = 0;
        while k < self.fields.len()
            invariant
                k <= self.fields@.len(),
                fields@ == self.fields@.subrange(0, k as int),
            decreases self.fields@.len() - k,
        {
            let f = Field {
                name: self.fields[k].name.clone(),
                data_type: self.fields[k].data_type.duplicate(),
            };
            assert(f == self.fields@[k as int]) by {
                assert(f.data_type == self.fields@[k as int].data_type);
            }
            fields.push(f);
            assert(fields@ =~= self.fields@.subrange(0, k as int + 1));
            k = k + 1;
        }
        assert(fields@ =~= self.fields@);
        Schema { fields }
    }
}

/// How a plan node's output is spread over workers.
#[derive(Debug, Clone, PartialEq, Eq)]
pub enum Distribution {
    Any,
    AnyShard,
    Single,
}

/// What every plan node carries: its id, schema, key and distribution.
#[derive(Debug, PartialEq, Eq)]
pub struct PlanBase {
    pub id: PlanNodeId,
    pub schema: Schema,
    pub pk_indices: Vec<usize>,
    pub dist: Distribution,
    pub append_only: bool,
}

impl PlanBase {
    /// A stream-side plan base: fresh id, the given schema and key, and the
    /// given distribution.
    pub fn new_stream(
        ctx: &mut OptimizerContext,
        schema: Schema,
        pk_indices: Vec<usize>,
        dist: Distribution,
        append_only: bool,
    ) -> (r: PlanBase)
        requires
            old(ctx).next_id < i32::MAX,
        ensures
            r.id.0 == old(ctx).next_id,
            final(ctx).next_id == old(ctx).next_id + 1,
            r.schema == schema,
            r.pk_indices == pk_indices,
            r.dist == dist,
            r.append_only == append_only,
    {
        let id = ctx.next_plan_node_id();
        PlanBase { id, schema, pk_indices, dist, append_only }
    }
}

/// The logical scan a stream index scan wraps.
#[derive(Debug, PartialEq, Eq)]
pub struct LogicalScan {
    pub base: PlanBase,
    pub table_name: String,
}

impl LogicalScan {
    pub fn schema(&self) -> (r: &Schema)
        ensures
            r == &self.base.schema,
    {
        &self.base.schema
    }

    pub fn table_name(&self) -> (r: &str)
        ensures
            r@ == self.table_name@,
    {
        self.table_name.as_str()
    }
}

fn clone_indices(v: &Vec<usize>) -> (r: Vec<usize>)
    ensures
        r@ == v@,
{
    let mut out: Vec<usize> = Vec::new();
    let mut k: usize = 0;
    while k < v.len()
        invariant
            k <= v@.len(),
            out@ == v@.subrange(0, k as int),
        decreases v@.len() - k,
    {
        out.push(v[k]);
        assert(out@ =~= v@.subrange(0, k as int + 1));
        k = k + 1;
    }
    assert(out@ =~= v@);
    out
}

/// A virtual plan node standing for a stream scan over an index: it is later
/// lowered to a chain of the upstream materialization and a batch scan, and
/// keeps the column order of the index.
#[derive(Debug)]
pub struct StreamIndexScan {
    pub base: PlanBase,
    pub logical: LogicalScan,
    pub batch_plan_id: PlanNodeId,
}

impl StreamIndexScan {
    /// Wraps the logical scan, drawing a fresh id for the node and one for
    /// the batch plan it lowers to. The distribution is not yet known, so
    /// the node is marked as spread over any shard, and not append-only.
    pub fn new(logical: LogicalScan, ctx: &mut OptimizerContext) -> (r: StreamIndexScan)
        requires
            old(ctx).next_id < i32::MAX - 1,
        ensures
            r.logical == logical,
            r.batch_plan_id.0 == old(ctx).next_id,
            r.base.id.0 == old(ctx).next_id + 1,
            final(ctx).next_id == old(ctx).next_id + 2,
            r.base.schema.fields@ == logical.base.schema.fields@,
            r.base.pk_indices@ == logical.base.pk_indices@,
            r.base.dist == Distribution::AnyShard,
            r.base.append_only == false,
    {
        let batch_plan_id = ctx.next_plan_node_id();
        let base = PlanBase::new_stream(
            ctx,
            logical.base.schema.duplicate(),
            clone_indices(&logical.base.pk_indices),
            Distribution::AnyShard,
            false,
        );
        StreamIndexScan { base, logical, batch_plan_id }
    }

    pub fn table_name(&self) -> (r: &str)
        ensures
            r@ == self.logical.table_name@,
    {
        self.logical.table_name()
    }

    pub fn logical(&self) -> (r: &LogicalScan)
        ensures
            r == self.logical,
    {
        &self.logical
    }

    pub fn batch_plan_id(&self) -> (r: &PlanNodeId)
        ensures
            r == self.batch_plan_id,
    {
        &self.batch_plan_id
    }
}

} // verus!

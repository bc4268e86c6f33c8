use lsm_compaction::data_type::{DataType, ScalarType, TypeConvertError};
use lsm_compaction::plan_node::{
    Distribution, Field, LogicalScan, OptimizerContext, PlanBase, PlanNodeId, Schema,
    StreamIndexScan,
};

#[test]
fn test_to_data_type_plain_types() {
    assert_eq!(DataType::Boolean.to_data_type(), Ok(ScalarType::Boolean));
    assert_eq!(DataType::SmallInt(None).to_data_type(), Ok(ScalarType::Int16));
    assert_eq!(DataType::Int(None).to_data_type(), Ok(ScalarType::Int32));
    assert_eq!(DataType::BigInt(None).to_data_type(), Ok(ScalarType::Int64));
    assert_eq!(DataType::Real.to_data_type(), Ok(ScalarType::Float32));
    assert_eq!(DataType::Double.to_data_type(), Ok(ScalarType::Float64));
    assert_eq!(DataType::Decimal(None, None).to_data_type(), Ok(ScalarType::Decimal));
    assert_eq!(DataType::Varchar(Some(10)).to_data_type(), Ok(ScalarType::Varchar));
    assert_eq!(DataType::Date.to_data_type(), Ok(ScalarType::Date));
    assert_eq!(DataType::Time(false).to_data_type(), Ok(ScalarType::Time));
    assert_eq!(DataType::Timestamp(false).to_data_type(), Ok(ScalarType::Timestamp));
    assert_eq!(DataType::Timestamp(true).to_data_type(), Ok(ScalarType::Timestampz));
    assert_eq!(DataType::Interval.to_data_type(), Ok(ScalarType::Interval));
}

#[test]
fn test_to_data_type_float_precision() {
    assert_eq!(DataType::Float(Some(1)).to_data_type(), Ok(ScalarType::Float32));
    assert_eq!(DataType::Float(Some(24)).to_data_type(), Ok(ScalarType::Float32));
    assert_eq!(DataType::Float(Some(25)).to_data_type(), Ok(ScalarType::Float64));
    assert_eq!(DataType::Float(Some(53)).to_data_type(), Ok(ScalarType::Float64));
    assert_eq!(DataType::Float(None).to_data_type(), Ok(ScalarType::Float64));
    assert_eq!(
        DataType::Float(Some(54)).to_data_type(),
        Err(TypeConvertError::Unsupported)
    );
}

#[test]
fn test_to_data_type_array() {
    assert_eq!(
        DataType::Array(Box::new(DataType::Int(None))).to_data_type(),
        Ok(ScalarType::List { datatype: Box::new(ScalarType::Int32) })
    );
    assert_eq!(
        DataType::Array(Box::new(DataType::Uuid)).to_data_type(),
        Err(TypeConvertError::Unsupported)
    );
}

#[test]
fn test_to_data_type_rejections() {
    assert_eq!(
        DataType::Char(Some(10)).to_data_type(),
        Err(TypeConvertError::CharNotSupported)
    );
    assert_eq!(DataType::Uuid.to_data_type(), Err(TypeConvertError::Unsupported));
    assert_eq!(DataType::Time(true).to_data_type(), Err(TypeConvertError::Unsupported));
    assert_eq!(
        DataType::SmallInt(Some(5)).to_data_type(),
        Err(TypeConvertError::Unsupported)
    );
    assert_eq!(
        DataType::Decimal(Some(10), Some(2)).to_data_type(),
        Err(TypeConvertError::Unsupported)
    );
    assert_eq!(DataType::Struct.to_data_type(), Err(TypeConvertError::Unsupported));
}

fn scan(ctx: &mut OptimizerContext) -> LogicalScan {
    let schema = Schema {
        fields: vec![Field { name: "v1".to_string(), data_type: ScalarType::Int32 }],
    };
    let base = PlanBase::new_stream(ctx, schema, vec![0], Distribution::Single, false);
    LogicalScan { base, table_name: "idx_t_v1".to_string() }
}

#[test]
fn test_stream_index_scan_new() {
    let mut ctx = OptimizerContext::new();
    let logical = scan(&mut ctx);
    let node = StreamIndexScan::new(logical, &mut ctx);
    assert_eq!(node.table_name(), "idx_t_v1");
    assert_eq!(node.logical().table_name(), "idx_t_v1");
    assert_eq!(node.batch_plan_id(), &PlanNodeId(1));
    assert_eq!(node.base.id, PlanNodeId(2));
    assert_eq!(node.base.dist, Distribution::AnyShard);
    assert!(!node.base.append_only);
    assert_eq!(node.base.schema, node.logical().base.schema);
    assert_eq!(ctx.next_id, 3);
}

//! SQL data types as they appear in the dialect's syntax tree, and their
//! mapping to the engine's internal scalar types.

use vstd::prelude::*;

verus! {

/// A possibly qualified name, as written in SQL.
#[derive(Debug, Clone, PartialEq, Eq, Hash)]
pub struct ObjectName(pub Vec<String>);

/// SQL data types
#[derive(Debug, PartialEq, Eq, Hash)]
pub enum DataType {
    /// Fixed-length character type e.g. CHAR(10)
    Char(Option<u64>),
    /// Variable-length character type e.g. VARCHAR(10)
    Varchar(Option<u64>),
    /// Uuid type
    Uuid,
    /// Large character object e.g. CLOB(1000)
    Clob(u64),
    /// Fixed-length binary type e.g. BINARY(10)
    Binary(u64),
    /// Variable-length binary type e.g. VARBINARY(10)
    Varbinary(u64),
    /// Large binary object e.g. BLOB(1000)
    Blob(u64),
    /// Decimal type with optional precision and scale e.g. DECIMAL(10,2)
    Decimal(Option<u64>, Option<u64>),
    /// Floating point with optional precision e.g. FLOAT(8)
    Float(Option<u64>),
    /// Tiny integer with optional display width e.g. TINYINT or TINYINT(3)
    TinyInt(Option<u64>),
    /// Small integer with optional display width e.g. SMALLINT or SMALLINT(5)
    SmallInt(Option<u64>),
    /// Integer with optional display width e.g. INT or INT(11)
    Int(Option<u64>),
    /// Big integer with optional display width e.g. BIGINT or BIGINT(20)
    BigInt(Option<u64>),
    /// Floating point e.g. REAL
    Real,
    /// Double e.g. DOUBLE PRECISION
    Double,
    /// Boolean
    Boolean,
    /// Date
    Date,
    /// Time with optional time zone
    Time(bool),
    /// Timestamp with optional time zone
    Timestamp(bool),
    /// Interval
    Interval,
    /// Regclass used in postgresql serial
    Regclass,
    /// Text
    Text,
    /// String
    String,
    /// Bytea
    Bytea,
    /// Custom type such as enums
    Custom(ObjectName),
    /// Arrays
    Array(Box<DataType>),
    Struct,
}

/// The engine's internal scalar types.
#[derive(Debug, PartialEq, Eq, Hash)]
pub enum ScalarType {
    Boolean,
    Int16,
    Int32,
    Int64,
    Float32,
    Float64,
    Decimal,
    Varchar,
    Date,
    Time,
    Timestamp,
    Timestampz,
    Interval,
    List { datatype: Box<ScalarType> },
}

/// Why a syntactic type has no internal counterpart.
#[derive(Debug, Clone, PartialEq, Eq)]
pub enum TypeConvertError {
    /// CHAR is not supported; VARCHAR must be used instead.
    CharNotSupported,
    /// The type has no internal representation.
    Unsupported,
}

/// The exact mapping from a syntactic type to the internal scalar type, or
/// the error the conversion must raise.
pub open spec fn converts_to(d: DataType, r: Result<ScalarType, TypeConvertError>) -> bool
    decreases d,
{
    match d {
        DataType::Boolean => r == Ok::<ScalarType, TypeConvertError>(ScalarType::Boolean),
        DataType::SmallInt(w) => if w is None {
            r == Ok::<ScalarType, TypeConvertError>(ScalarType::Int16)
        } else {
            r == Err::<ScalarType, TypeConvertError>(TypeConvertError::Unsupported)
        },
        DataType::Int(w) => if w is None {
            r == Ok::<ScalarType, TypeConvertError>(ScalarType::Int32)
        } else {
            r == Err::<ScalarType, TypeConvertError>(TypeConvertError::Unsupported)
        },
        DataType::BigInt(w) => if w is None {
            r == Ok::<ScalarType, TypeConvertError>(ScalarType::Int64)
        } else {
            r == Err::<ScalarType, TypeConvertError>(TypeConvertError::Unsupported)
        },
        DataType::Real => r == Ok::<ScalarType, TypeConvertError>(ScalarType::Float32),
        DataType::Double => r == Ok::<ScalarType, TypeConvertError>(ScalarType::Float64),
        DataType::Float(p) => match p {
            None => r == Ok::<ScalarType, TypeConvertError>(ScalarType::Float64),
            Some(n) => if 1 <= n <= 24 {
                r == Ok::<ScalarType, TypeConvertError>(ScalarType::Float32)
            } else if 25 <= n <= 53 {
                r == Ok::<ScalarType, TypeConvertError>(ScalarType::Float64)
            } else {
                r == Err::<ScalarType, TypeConvertError>(TypeConvertError::Unsupported)
            },
        },
        DataType::Decimal(p, s) => if p is None && s is None {
            r == Ok::<ScalarType, TypeConvertError>(ScalarType::Decimal)
        } else {
            r == Err::<ScalarType, TypeConvertError>(TypeConvertError::Unsupported)
        },
        DataType::Varchar(_) => r == Ok::<ScalarType, TypeConvertError>(ScalarType::Varchar),
        DataType::Date => r == Ok::<ScalarType, TypeConvertError>(ScalarType::Date),
        DataType::Time(tz) => if !tz {
            r == Ok::<ScalarType, TypeConvertError>(ScalarType::Time)
        } else {
            r == Err::<ScalarType, TypeConvertError>(TypeConvertError::Unsupported)
        },
        DataType::Timestamp(tz) => if !tz {
            r == Ok::<ScalarType, TypeConvertError>(ScalarType::Timestamp)
        } else {
            r == Ok::<ScalarType, TypeConvertError>(ScalarType::Timestampz)
        },
        DataType::Interval => r == Ok::<ScalarType, TypeConvertError>(ScalarType::Interval),
        DataType::Array(inner) => match r {
            Ok(out) => match out {
                ScalarType::List { datatype } => converts_to(*inner, Ok(*datatype)),
                _ => false,
            },
            Err(e) => converts_to(*inner, Err(e)),
        },
        DataType::Char(_) => r == Err::<ScalarType, TypeConvertError>(
            TypeConvertError::CharNotSupported,
        ),
        _ => r == Err::<ScalarType, TypeConvertError>(TypeConvertError::Unsupported),
    }
}

impl ScalarType {
    /// A variant-for-variant copy of the type.
    pub fn duplicate(&self) -> (r: ScalarType)
        ensures
            r == *self,
        decreases *self,
    {
        match self {
            ScalarType::Boolean => ScalarType::Boolean,
            ScalarType::Int16 => ScalarType::Int16,
            ScalarType::Int32 => ScalarType::Int32,
            ScalarType::Int64 => ScalarType::Int64,
            ScalarType::Float32 => ScalarType::Float32,
            ScalarType::Float64 => ScalarType::Float64,
            ScalarType::Decimal => ScalarType::Decimal,
            ScalarType::Varchar => ScalarType::Varchar,
            ScalarType::Date => ScalarType::Date,
            ScalarType::Time => ScalarType::Time,
            ScalarType::Timestamp => ScalarType::Timestamp,
            ScalarType::Timestampz => ScalarType::Timestampz,
            ScalarType::Interval => ScalarType::Interval,
            ScalarType::List { datatype } => ScalarType::List {
                datatype: Box::new(datatype.duplicate()),
            },
        }
    }
}

impl DataType {
    /// Maps the syntactic type to the engine's scalar type; rejects types
    /// the engine does not model.
    pub fn to_data_type(&self) -> (r: Result<ScalarType, TypeConvertError>)
        ensures
            converts_to(*self, r),
        decreases *self,
    {
        match self {
            DataType::Boolean => Ok(ScalarType::Boolean),
            DataType::SmallInt(w) => match w {
                None => Ok(ScalarType::Int16),
                Some(_) => Err(TypeConvertError::Unsupported),
            },
            DataType::Int(w) => match w {
                None => Ok(ScalarType::Int32),
                Some(_) => Err(TypeConvertError::Unsupported),
            },
            DataType::BigInt(w) => match w {
                None => Ok(ScalarType::Int64),
                Some(_) => Err(TypeConvertError::Unsupported),
            },
            DataType::Real => Ok(ScalarType::Float32),
            DataType::Double => Ok(ScalarType::Float64),
            DataType::Float(p) => match p {
                None => Ok(ScalarType::Float64),
                Some(n) => {
                    if 1 <= *n && *n <= 24 {
                        Ok(ScalarType::Float32)
                    } else if 25 <= *n && *n <= 53 {
                        Ok(ScalarType::Float64)
                    } else {
                        Err(TypeConvertError::Unsupported)
                    }
                },
            },
            DataType::Decimal(p, s) => match (p, s) {
                (None, None) => Ok(ScalarType::Decimal),
                _ => Err(TypeConvertError::Unsupported),
            },
            DataType::Varchar(_) => Ok(ScalarType::Varchar),
            DataType::Date => Ok(ScalarType::Date),
            DataType::Time(tz) => {
                if !*tz {
                    Ok(ScalarType::Time)
                } else {
                    Err(TypeConvertError::Unsupported)
                }
            },
            DataType::Timestamp(tz) => {
                if !*tz {
                    Ok(ScalarType::Timestamp)
                } else {
                    Ok(ScalarType::Timestampz)
                }
            },
            DataType::Interval => Ok(ScalarType::Interval),
            DataType::Array(inner) => match inner.to_data_type() {
                Ok(out) => Ok(ScalarType::List { datatype: Box::new(out) }),
                Err(e) => Err(e),
            },
            DataType::Char(_) => Err(TypeConvertError::CharNotSupported),
            _ => Err(TypeConvertError::Unsupported),
        }
    }
}

} // verus!

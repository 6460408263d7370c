//! An embedded, in-memory relational data engine: a catalog of named tables
//! and an executor that runs parsed statements against it.
//!
//! The engine takes statements as values, see [`definitions`]; it reads no
//! SQL text. [`rusql::Rusql`] is the catalog, [`table::Table`] a table,
//! [`exec::rusql_exec`] runs a batch of statements, and [`semantics`] says,
//! on the mathematical content of the catalog, what each statement does.

pub mod definitions;
pub mod error;
pub mod exec;
pub mod expressions;
pub mod laws;
pub mod order;
pub mod rusql;
pub mod semantics;
mod store;
pub mod table;

pub use crate::definitions::{
    AlterTable, AlterTableDef, BinaryOperator, ColumnConstraint, ColumnDef, ColumnType, DeleteDef,
    DropTableDef, Expression, InsertDataSource, InsertDef, LiteralValue, ResultColumn,
    RusqlStatement, SelectDef, TableDef, UpdateDef,
};
pub use crate::error::Error;
pub use crate::exec::rusql_exec;
pub use crate::expressions::{ExpressionEvaluator, ExpressionResult};
pub use crate::rusql::Rusql;
pub use crate::table::{get_column, HeaderFormat, PkType, Table, TableHeader, TableRow};

//! Fixed-point tabulation of invoice line items.
//!
//! Resolves a collection of weighted line items (base prices, add-ons, fees,
//! taxes, discounts) into exact decimal subtotals whose sum equals the grand
//! total: quantization never creates or destroys a currency unit.

pub mod cascade;
pub mod data;
pub mod decimal;
pub mod divide;
pub mod group;
pub mod remainder;
pub mod tabulate;
pub mod tier;
pub mod valuemap;

pub use data::{Account, Calculation, Category, LineItem, LineType, Pricing, Product, ServicePlan, TabulationError};
pub use decimal::{parse_dec, quantize, quantized_zero, quantum, value_string, Dec};
pub use divide::divide_amount;
pub use group::lines_by_priority;
pub use tabulate::{calculation_from_totals, frozen_lines, get_totals, reckon_lines};
pub use valuemap::{Entry, LineValueMap};

//! Merging of single-measurement spectrometer files into one table.
//!
//! A reference file fixes the wavelength axis and the metadata; every file then
//! adds one intensity column with its exposure time and base name. The bundle
//! renders a raw table, a table of intensities per unit of exposure time, and a
//! metadata report.
pub mod bundle;
pub mod decimal;
pub mod measurement;
pub mod table;
pub mod text;

pub use bundle::{exposure_time_of, Bundle, BundleError};
pub use decimal::{format_quotient, parse_decimal, Decimal};
pub use measurement::{parse_measurement, MeasurementFile};
pub use table::parse_table;

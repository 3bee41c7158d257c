//! Faceted filtering, search, sorting and paging over sessions of
//! semi-structured log records.

pub mod text;
pub mod record;
pub mod json;
pub mod facet;
pub mod filter;
pub mod sort;
pub mod page;
pub mod session;
pub mod registry;
pub mod laws;

pub use facet::{Facet, FacetValue, MatchType};
pub use record::{Field, FieldValue, Record};
pub use registry::{
    SessionError, SessionRegistry, add_data_to_structured_logging_session,
    add_facet_to_structured_logging_session, get_facets_for_structured_logging_session,
    get_filtered_data_for_structured_logging_session, remove_facet_from_structured_logging_session,
    set_facet_match_type_for_structured_logging_session, set_filtered_for_facet_value,
    start_structured_logging_session,
};
pub use session::{
    FilteredLogResult, StructuredLoggingSession, update_unique_facet_values_for_logging_session,
};
pub use sort::{SortingState, Verdict};

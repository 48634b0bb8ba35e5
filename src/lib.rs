//! Classification, grouping and pagination of full replace-by-fee events.
//!
//! Events observed in a node's pool are decoded into plain transaction facts,
//! kept when the replaced transaction did not opt in and directly conflicts
//! with its replacement, merged per replacement and timestamp, ordered most
//! recent first and split into report pages.
pub mod classify;
pub mod group;
pub mod html;
pub mod kinds;
pub mod pages;
pub mod text;
pub mod tx;
pub mod types;

pub use classify::{conflict, is_full_rbf, signals_opt_in_rbf};
pub use group::build_replacement_groups;
pub use html::{
    build_replacement_context, get_reverse_fullrbf_replacements, in_and_outputs_to_strings,
    DecodedEvent, NavigationContext, ReplacementContext, ReplacementGroupContext,
    ReplacementGroupDeltaContext, SiteContext, TransactionContext,
};
pub use kinds::kind_summary;
pub use pages::{
    build_site_contexts, get_filename, page_count, sequence, without_op_return, MAX_PAGES,
    REPLACEMENT_GROUPS_PER_PAGE,
};
pub use tx::{transaction_facts, DecodeError, Outpoint, TransactionFacts, TxInput};
pub use types::{RBFEvent, TXID_LENGTH};

//! Core engine for hierarchical organizations, ranked roles, chain-of-command
//! (CoC) resolution, rank-scoped authorization, and a report lifecycle.
//!
//! Organizations form a forest via parent links; ranked roles attached to an
//! organization are ordered by rank (lower numeric rank = higher authority),
//! with ties broken by an ordinal position and then by identifier. The chain
//! of command of a role walks upward through successively higher-authority
//! roles, crossing into ancestor organizations when the top of an
//! organization is reached. Authorization decisions (who may reorder roles,
//! acknowledge reports, or list reports) are derived from that chain.

pub mod model;
pub mod roles;
pub mod orgs;
pub mod coc;
pub mod reports;
pub mod authz;
pub mod requests;
pub mod laws;

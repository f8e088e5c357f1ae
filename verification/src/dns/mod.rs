//! DNS validation with wildcard filtering.
//!
//! The modules hold the rules: what is asked, what answers mean, and how state moves
//! from one answer to the next. Sending queries is left to the caller, who hands the
//! outcome back as plain values.
//!
//! 1. A wildcard signature records the addresses and the CNAME targets that random
//!    probes of a zone brought.
//! 2. The ancestors of all hosts are probed first; hosts are then judged against the
//!    recorded states.
//! 3. Each host is asked of several resolvers. If one returns answers and another
//!    NXDOMAIN, the host is `Shaky`.
//! 4. A zone whose probes bring no decisive response is dead, and its hosts are not
//!    asked.

pub mod answers;
pub mod config;
pub mod decision;
pub mod health;
pub mod probe;
pub mod stats;
pub mod tracking;
pub mod validator;
pub mod zones;

pub use self::config::DnsConfig;
pub use self::health::{
    ResolverCheckConfig, ResolverCheckSummary, ResolverHealth, ResolverHealthChecks,
    ResolverHealthStatus, ResolverLatencyStats,
};
pub use self::stats::{
    DnsShortCircuitStats, DnsStats, DnsStatusStats, ResolverDisagreementStats,
    SignatureParentStats, WildcardDecisionStats,
};
pub use self::validator::{DnsReport, DnsValidator};

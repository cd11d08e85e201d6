//! Min-sum belief-propagation decoding of regular LDPC codes.
//!
//! A code is held as its Tanner graph ([`code::LDPCCode`]): the adjacency
//! between bit nodes and check nodes in both directions, with the reciprocal
//! position of every edge computed once, when the graph is built from a code
//! description ([`code::LDPCCode::new`]) or from the text of one
//! ([`code::LDPCCode::from_alist`]).
//!
//! A decoder ([`decoders::Decoder`]) takes a code, one channel
//! log-likelihood ratio per bit and one syndrome bit per check, and returns a
//! flip pattern that implies the syndrome, or reports that it found none
//! within its budget of rounds. Log-likelihood ratios are signed fixed-point
//! integers ([`llr`]); a positive value favours "not flipped".
//!
//! What the functions compute is stated over a mathematical model of the
//! graph ([`graph::TannerGraph`]) and of the messages ([`minsum`]), and
//! proved.

pub mod alist;
pub mod code;
pub mod decoders;
pub mod graph;
pub mod incidence;
pub mod llr;
pub mod minsum;
pub mod relation;
pub mod syndrome;

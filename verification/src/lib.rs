//! A site crawler's verified core: the tree of discovered links, the rules
//! that pick which `href` targets are followed, the crawl's decisions, and
//! the text that the statistics page serves.

pub mod text;
pub mod link_tree;
pub mod address;
pub mod links;
pub mod stats;
pub mod crawl;
pub mod redirect;
pub mod page;
pub mod layout;

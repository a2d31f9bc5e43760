mod avl;
mod channel;
mod combinations;
mod comm;
mod conway;
mod flat_map;
mod lru;
mod min_queue;
mod prefix;
mod pstack;
mod trust;

pub use avl::AVLTreeMap;
pub use avl::Node;
pub use channel::Channel;
pub use channel::ReceiveError;
pub use channel::SendError;
pub use combinations::combinations;
pub use comm::common_lines;
pub use conway::Cell;
pub use conway::GameOfLife;
pub use conway::Grid;
pub use flat_map::FlatMap;
pub use lru::LRUCache;
pub use min_queue::MinQueue;
pub use prefix::State;
pub use prefix::longest_common_prefix;
pub use pstack::PRef;
pub use pstack::PStack;
pub use pstack::PStackIterator;
pub use trust::Bet;
pub use trust::CheatingAgent;
pub use trust::CooperatingAgent;
pub use trust::CopycatAgent;
pub use trust::DetectiveAgent;
pub use trust::Game;
pub use trust::GrudgerAgent;
pub use trust::RoundOutcome;
pub use trust::TrustAgent;


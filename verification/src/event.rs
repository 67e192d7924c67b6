//! Events reported by the node, and their one-line rendering.
use vstd::prelude::*;
use vstd::string::StringExecFns;
use vstd::utf8::{decode_utf8, encode_utf8, encode_utf8_decode_utf8, is_char_boundary};

verus! {

/// Events emitted by the node.
#[derive(Debug, Clone)]
pub enum SystemEvent {
    SecurityDrop { peer: String, reason: String },
    MutationCommitted { hash: String, author: String },
    StateMerged { nodes_added: usize },
    GarbageCollection { nodes_pruned: usize, remaining: usize },
    AiInference { prompt: String, decision: String },
    Status(String),
}

/// Decimal digits of `n`, without leading zeros.
pub open spec fn decimal(n: nat) -> Seq<char>
    decreases n,
{
    if n < 10 {
        seq![(48 + n) as char]
    } else {
        decimal(n / 10).push((48 + n % 10) as char)
    }
}

/// The decimal digit `d` as a one-character string.
fn digit(d: usize) -> (r: &'static str)
    requires
        d < 10,
    ensures
        r@ == seq![(48 + d) as char],
{
    match d {
        0 => {
            proof { reveal_strlit("0"); }
            "0"
        },
        1 => {
            proof { reveal_strlit("1"); }
            "1"
        },
        2 => {
            proof { reveal_strlit("2"); }
            "2"
        },
        3 => {
            proof { reveal_strlit("3"); }
            "3"
        },
        4 => {
            proof { reveal_strlit("4"); }
            "4"
        },
        5 => {
            proof { reveal_strlit("5"); }
            "5"
        },
        6 => {
            proof { reveal_strlit("6"); }
            "6"
        },
        7 => {
            proof { reveal_strlit("7"); }
            "7"
        },
        8 => {
            proof { reveal_strlit("8"); }
            "8"
        },
        _ => {
            proof { reveal_strlit("9"); }
            "9"
        },
    }
}

/// Decimal rendering of a `usize`, as `to_string` writes it.
fn usize_decimal(n: usize) -> (r: String)
    ensures
        r@ == decimal(n as nat),
    decreases n,
{
    if n < 10 {
        String::from_str(digit(n))
    } else {
        let head = usize_decimal(n / 10);
        let r = head.concat(digit(n % 10));
        proof {
            assert(r@ =~= decimal((n / 10) as nat).push((48 + n % 10) as char));
        }
        r
    }
}

impl SystemEvent {
    /// Rendering is defined for every event but a committed mutation whose
    /// hash has no character boundary at byte 8.
    pub open spec fn displayable(&self) -> bool {
        match self {
            SystemEvent::MutationCommitted { hash, .. } => is_char_boundary(encode_utf8(hash@), 8),
            _ => true,
        }
    }

    /// The one-line rendering of the event; for a committed mutation, `c` is
    /// the text of the first 8 bytes of the hash.
    pub open spec fn display_with(&self, c: Seq<char>) -> Seq<char> {
        match self {
            SystemEvent::SecurityDrop { peer, reason } => "[SECURITY] Blocked "@ + peer@ + ": "@
                + reason@,
            SystemEvent::MutationCommitted { author, .. } => "[AE] Committed "@ + c + " by "@
                + author@,
            SystemEvent::StateMerged { nodes_added } => "[SYNC] Merged "@ + decimal(
                *nodes_added as nat,
            ) + " nodes"@,
            SystemEvent::GarbageCollection { nodes_pruned, .. } => "[GC] Pruned "@ + decimal(
                *nodes_pruned as nat,
            ) + " orphan nodes"@,
            SystemEvent::AiInference { decision, .. } => "[AI] Decision: "@ + decision@,
            SystemEvent::Status(msg) => "[SYS] "@ + msg@,
        }
    }

    /// The one-line rendering of the event: for a committed mutation, the
    /// text of the first 8 bytes of the hash stands for the hash.
    pub open spec fn displayed(&self) -> Seq<char> {
        match self {
            SystemEvent::MutationCommitted { hash, .. } => self.display_with(
                decode_utf8(encode_utf8(hash@).take(8)),
            ),
            _ => self.display_with(Seq::empty()),
        }
    }

    /// One-line rendering of the event.
    pub fn to_display(&self) -> (r: String)
        requires
            self.displayable(),
        ensures
            r@ == self.displayed(),
    {
        match self {
            SystemEvent::SecurityDrop { peer, reason } => {
                let r = String::from_str("[SECURITY] Blocked ").concat(peer.as_str()).concat(
                    ": ",
                ).concat(reason.as_str());
                proof {
                    assert(r@ == self.display_with(Seq::empty()));
                }
                r
            },
            SystemEvent::MutationCommitted { hash, author } => {
                let (head, _) = hash.as_str().split_at(8);
                let r = String::from_str("[AE] Committed ").concat(head).concat(" by ").concat(
                    author.as_str(),
                );
                proof {
                    encode_utf8_decode_utf8(head@);
                    assert(encode_utf8(head@) == encode_utf8(hash@).take(8));
                    assert(r@ == self.display_with(head@));
                }
                r
            },
            SystemEvent::StateMerged { nodes_added } => {
                let n = usize_decimal(*nodes_added);
                let r = String::from_str("[SYNC] Merged ").concat(n.as_str()).concat(" nodes");
                proof {
                    assert(r@ == self.display_with(Seq::empty()));
                }
                r
            },
            SystemEvent::GarbageCollection { nodes_pruned, .. } => {
                let n = usize_decimal(*nodes_pruned);
                let r = String::from_str("[GC] Pruned ").concat(n.as_str()).concat(
                    " orphan nodes",
                );
                proof {
                    assert(r@ == self.display_with(Seq::empty()));
                }
                r
            },
            SystemEvent::AiInference { decision, .. } => {
                let r = String::from_str("[AI] Decision: ").concat(decision.as_str());
                proof {
                    assert(r@ == self.display_with(Seq::empty()));
                }
                r
            },
            SystemEvent::Status(msg) => {
                let r = String::from_str("[SYS] ").concat(msg.as_str());
                proof {
                    assert(r@ == self.display_with(Seq::empty()));
                }
                r
            },
        }
    }
}

} // verus!

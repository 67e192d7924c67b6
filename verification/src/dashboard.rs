//! What the monitoring dashboard shows: the bounded event log and the text
//! of its panels. Drawing the panels on a terminal is left to the caller.
use crate::config::MAX_VISIBLE_LOGS;
use crate::event::SystemEvent;
use vstd::prelude::*;
use vstd::string::StringExecFns;

verus! {

/// The log after one more event: the oldest event leaves once the log holds
/// more than `MAX_VISIBLE_LOGS` events.
pub open spec fn logged(logs: Seq<SystemEvent>, event: SystemEvent) -> Seq<SystemEvent> {
    let grown = logs.push(event);
    if grown.len() > MAX_VISIBLE_LOGS {
        grown.drop_first()
    } else {
        grown
    }
}

/// Appends `event` to the visible log, dropping the oldest entry when the
/// log grows past `MAX_VISIBLE_LOGS`.
pub fn record_log(logs: &mut Vec<SystemEvent>, event: SystemEvent)
    ensures
        final(logs)@ == logged(old(logs)@, event),
        old(logs).len() <= MAX_VISIBLE_LOGS ==> final(logs).len() <= MAX_VISIBLE_LOGS,
{
    logs.push(event);
    if logs.len() > MAX_VISIBLE_LOGS {
        logs.remove(0);
        proof {
            assert(logs@ =~= logged(old(logs)@, event));
        }
    }
}

/// Every event of the log can be rendered.
pub open spec fn all_displayable(logs: Seq<SystemEvent>) -> bool {
    forall|i: int| 0 <= i < logs.len() ==> #[trigger] logs[i].displayable()
}

/// The events of the log, each on a line of its own that starts with a space.
pub open spec fn log_lines(logs: Seq<SystemEvent>) -> Seq<char>
    decreases logs.len(),
{
    if logs.len() == 0 {
        Seq::empty()
    } else {
        log_lines(logs.drop_last()) + "\n "@ + logs.last().displayed()
    }
}

/// Text of the network log panel.
pub open spec fn log_panel_text(logs: Seq<SystemEvent>) -> Seq<char> {
    if logs.len() == 0 {
        "\n Waiting for system events..."@
    } else {
        log_lines(logs)
    }
}

/// Text of the network log panel for `logs`.
pub fn log_panel(logs: &[SystemEvent]) -> (r: String)
    requires
        all_displayable(logs@),
    ensures
        r@ == log_panel_text(logs@),
{
    if logs.len() == 0 {
        return String::from_str("\n Waiting for system events...");
    }
    let mut s = String::new();
    let mut i: usize = 0;
    while i < logs.len()
        invariant
            i <= logs.len(),
            all_displayable(logs@),
            s@ == log_lines(logs@.take(i as int)),
        decreases logs.len() - i,
    {
        let line = logs[i].to_display();
        s.append("\n ");
        s.append(line.as_str());
        proof {
            let t = logs@.take(i + 1);
            assert(t.drop_last() =~= logs@.take(i as int));
            assert(t.last() == logs@[i as int]);
        }
        i = i + 1;
    }
    proof {
        assert(logs@.take(logs.len() as int) =~= logs@);
    }
    s
}

/// Whether the event is an inference decision, shown in the audit trail.
pub open spec fn is_audited(event: SystemEvent) -> bool {
    event is AiInference
}

/// The inference decisions of the log, each as `> ` and its rendering,
/// joined by line breaks.
pub open spec fn audit_lines(logs: Seq<SystemEvent>) -> Seq<char>
    decreases logs.len(),
{
    if logs.len() == 0 {
        Seq::empty()
    } else {
        let before = audit_lines(logs.drop_last());
        let last = logs.last();
        if !is_audited(last) {
            before
        } else if before.len() == 0 {
            "> "@ + last.displayed()
        } else {
            before + "\n"@ + "> "@ + last.displayed()
        }
    }
}

/// Text of the audit trail panel.
pub open spec fn audit_panel_text(logs: Seq<SystemEvent>) -> Seq<char> {
    if audit_lines(logs).len() == 0 {
        "\n No verified AI decisions yet."@
    } else {
        audit_lines(logs)
    }
}

/// Text of the audit trail panel for `logs`: the inference decisions only.
pub fn audit_panel(logs: &[SystemEvent]) -> (r: String)
    ensures
        r@ == audit_panel_text(logs@),
{
    let mut s = String::new();
    let mut any: bool = false;
    let mut i: usize = 0;
    while i < logs.len()
        invariant
            i <= logs.len(),
            s@ == audit_lines(logs@.take(i as int)),
            any <==> s@.len() > 0,
        decreases logs.len() - i,
    {
        let ghost before = s@;
        proof {
            let t = logs@.take(i + 1);
            assert(t.drop_last() =~= logs@.take(i as int));
            assert(t.last() == logs@[i as int]);
        }
        match &logs[i] {
            SystemEvent::AiInference { .. } => {
                let line = logs[i].to_display();
                if any {
                    s.append("\n");
                }
                any = true;
                s.append("> ");
                s.append(line.as_str());
                proof {
                    reveal_strlit("> ");
                    assert(("> "@ + line@).len() > 0);
                }
            },
            _ => {},
        }
        i = i + 1;
    }
    proof {
        assert(logs@.take(logs.len() as int) =~= logs@);
    }
    if !any {
        String::from_str("\n No verified AI decisions yet.")
    } else {
        s
    }
}

/// Text of the header line.
pub open spec fn header_text(version: Seq<char>, node_id: Seq<char>) -> Seq<char> {
    " AIMP Core v"@ + version + " | Node: "@ + node_id + " | Press 'q' to exit"@
}

/// Header line naming the node software's `version` and the node.
pub fn header_line(version: &str, node_id: &str) -> (r: String)
    ensures
        r@ == header_text(version@, node_id@),
{
    String::from_str(" AIMP Core v").concat(version).concat(" | Node: ").concat(node_id).concat(
        " | Press 'q' to exit",
    )
}

/// Text of the network panel showing the Merkle root.
pub open spec fn stats_text(merkle_root: Seq<char>) -> Seq<char> {
    "\n DAG METRICS:\n\n - ROOT HASH:\n   "@ + merkle_root
        + "\n\n - NODE STATE: ACTIVE\n - ACTOR MODE: SYNC_PASS"@
}

/// Network panel text for the given Merkle root.
pub fn stats_panel(merkle_root: &str) -> (r: String)
    ensures
        r@ == stats_text(merkle_root@),
{
    String::from_str("\n DAG METRICS:\n\n - ROOT HASH:\n   ").concat(merkle_root).concat(
        "\n\n - NODE STATE: ACTIVE\n - ACTOR MODE: SYNC_PASS",
    )
}

} // verus!

//! The sync server's decisions for one connection: the greeting, with the
//! operations the client has not seen, and what becomes of each operation it sends.
use vstd::prelude::*;
use vstd::string::*;
use crate::server::operation_store::{missing, OperationStore};
use crate::sync::operation::OpModel;
use crate::sync::operation_log::{models, op_ids};
use crate::sync::protocol::ClientWireMessage;
use crate::sync::Operation;
use crate::text::{decimal, push_decimal, Duplicate};

verus! {

/// `connected as R; sending N missing operations`.
pub open spec fn greeting_text(replica_id: Seq<char>, count: nat) -> Seq<char> {
    "connected as "@ + replica_id + "; sending "@ + decimal(count) + " missing operations"@
}

/// `accepted operation ID from R; log size N`.
pub open spec fn accepted_text(op: OpModel, size: nat) -> Seq<char> {
    "accepted operation "@ + op.op_id + " from "@ + op.replica_id + "; log size "@ + decimal(size)
}

/// The ids a client says it has seen.
pub open spec fn seen_ids(seen: Seq<String>) -> Seq<Seq<char>> {
    seen.map_values(|s: String| s@)
}

/// Answers a client's first message: a hello gets the greeting and the stored
/// operations it has not seen, in arrival order; anything else is refused.
pub fn greet(store: &OperationStore, first: &ClientWireMessage) -> (r: Result<(String, Vec<Operation>), String>)
    requires
        store.wf(),
    ensures
        match *first {
            ClientWireMessage::Hello { replica_id, seen_operations } => match r {
                Ok(reply) => models(reply.1@) == missing(store@, seen_ids(seen_operations@)) && reply.0@
                    == greeting_text(replica_id@, missing(store@, seen_ids(seen_operations@)).len()),
                Err(_) => false,
            },
            ClientWireMessage::Operation(_) => match r {
                Ok(_) => false,
                Err(e) => e@ == "first message must be Hello"@,
            },
        },
{
    match first {
        ClientWireMessage::Hello { replica_id, seen_operations } => {
            let unseen = store.missing_for(seen_operations.as_slice());
            proof {
                reveal_strlit("connected as ");
                reveal_strlit("; sending ");
                reveal_strlit(" missing operations");
            }
            let mut message = String::from_str("connected as ");
            message.append(replica_id.as_str());
            message.append("; sending ");
            push_decimal(&mut message, unseen.len() as u64);
            message.append(" missing operations");
            assert(message@ =~= greeting_text(replica_id@, models(unseen@).len()));
            Ok((message, unseen))
        },
        ClientWireMessage::Operation(_) => {
            proof {
                reveal_strlit("first message must be Hello");
            }
            Err(String::from_str("first message must be Hello"))
        },
    }
}

/// Takes in a message after the greeting. An operation with an id not stored yet
/// enters the store and comes back, to be passed on to every client, with a line
/// for the server's log; a repeated operation, a malformed one or another hello
/// changes nothing.
pub fn accept(store: &mut OperationStore, message: ClientWireMessage) -> (r: Option<(Operation, String)>)
    requires
        old(store).wf(),
    ensures
        final(store).wf(),
        match message {
            ClientWireMessage::Operation(op) => if op.wf() && !op_ids(old(store)@).contains(op.deep_view().op_id) {
                &&& final(store)@ == old(store)@.push(op.deep_view())
                &&& r matches Some(out) && out.0.deep_view() == op.deep_view() && out.1@ == accepted_text(
                    op.deep_view(),
                    final(store)@.len(),
                )
            } else {
                final(store)@ == old(store)@ && r is None
            },
            ClientWireMessage::Hello { .. } => final(store)@ == old(store)@ && r is None,
        },
{
    match message {
        ClientWireMessage::Operation(operation) => {
            if !operation.is_well_formed() {
                return None;
            }
            let kept = operation.duplicate();
            if !store.insert(operation) {
                return None;
            }
            proof {
                reveal_strlit("accepted operation ");
                reveal_strlit(" from ");
                reveal_strlit("; log size ");
            }
            let mut line = String::from_str("accepted operation ");
            line.append(kept.op_id.as_str());
            line.append(" from ");
            line.append(kept.replica_id.as_str());
            line.append("; log size ");
            push_decimal(&mut line, store.len() as u64);
            assert(line@ =~= accepted_text(kept.deep_view(), store@.len()));
            Some((kept, line))
        },
        ClientWireMessage::Hello { .. } => None,
    }
}

} // verus!

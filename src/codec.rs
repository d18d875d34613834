use crate::model::{decimal_of, digit, ops_json};
use crate::session::ServerMessage;
use crate::store::UserOperation;
use vstd::prelude::*;

verus! {

/// The text of the decimal digit `d`.
fn digit_text(d: u64) -> (r: &'static str)
    requires
        d < 10,
    ensures
        r@ == seq![digit(d as nat)],
{
    if d == 0 {
        proof {
            reveal_strlit("0");
        }
        "0"
    } else if d == 1 {
        proof {
            reveal_strlit("1");
        }
        "1"
    } else if d == 2 {
        proof {
            reveal_strlit("2");
        }
        "2"
    } else if d == 3 {
        proof {
            reveal_strlit("3");
        }
        "3"
    } else if d == 4 {
        proof {
            reveal_strlit("4");
        }
        "4"
    } else if d == 5 {
        proof {
            reveal_strlit("5");
        }
        "5"
    } else if d == 6 {
        proof {
            reveal_strlit("6");
        }
        "6"
    } else if d == 7 {
        proof {
            reveal_strlit("7");
        }
        "7"
    } else if d == 8 {
        proof {
            reveal_strlit("8");
        }
        "8"
    } else {
        proof {
            reveal_strlit("9");
        }
        "9"
    }
}

/// The decimal digits of `n`, most significant first.
fn decimal(n: u64) -> (r: String)
    ensures
        r@ == decimal_of(n as nat),
    decreases n,
{
    let mut out = if n >= 10 {
        decimal(n / 10)
    } else {
        String::new()
    };
    out.append(digit_text(n % 10));
    proof {
        assert(out@ =~= decimal_of(n as nat));
    }
    out
}

/// `{"id":<id>,"operation":<ops>}`
pub open spec fn entry_json(u: UserOperation) -> Seq<char> {
    "{\"id\":"@ + decimal_of(u.id as nat) + ",\"operation\":"@ + ops_json(u.operation.ops())
        + "}"@
}

/// The entries' JSON texts, separated by commas.
pub open spec fn entries_json(es: Seq<UserOperation>) -> Seq<char>
    decreases es.len(),
{
    if es.len() == 0 {
        Seq::<char>::empty()
    } else if es.len() == 1 {
        entry_json(es[0])
    } else {
        entries_json(es.drop_last()) + ","@ + entry_json(es.last())
    }
}

/// The JSON text of a server message: `{"Identity":<id>}` or
/// `{"History":{"start":<start>,"operations":[<entries>]}}`.
pub open spec fn message_json(m: ServerMessage) -> Seq<char> {
    match m {
        ServerMessage::Identity(id) => "{\"Identity\":"@ + decimal_of(id as nat) + "}"@,
        ServerMessage::History { start, operations } => "{\"History\":{\"start\":"@
            + decimal_of(start as nat) + ",\"operations\":["@ + entries_json(operations@)
            + "]}}"@,
    }
}

/// Every edit the message carries is well formed.
pub open spec fn message_wf(m: ServerMessage) -> bool {
    match m {
        ServerMessage::Identity(_) => true,
        ServerMessage::History { start, operations } => forall|i: int|
            0 <= i < operations@.len() ==> (#[trigger] operations@[i]).operation.wf(),
    }
}

/// Writes the JSON text of one history entry.
fn encode_entry(u: &UserOperation) -> (r: String)
    requires
        u.operation.wf(),
    ensures
        r@ == entry_json(*u),
{
    let mut out = String::new();
    out.append("{\"id\":");
    let id = decimal(u.id);
    out.append(id.as_str());
    out.append(",\"operation\":");
    let body = u.operation.to_string();
    out.append(body.as_str());
    out.append("}");
    proof {
        assert(out@ =~= entry_json(*u));
    }
    out
}

/// Encodes a server message as the JSON text sent to clients.
pub fn encode(m: &ServerMessage) -> (r: String)
    requires
        message_wf(*m),
    ensures
        r@ == message_json(*m),
{
    match m {
        ServerMessage::Identity(id) => {
            let mut out = String::new();
            out.append("{\"Identity\":");
            let digits = decimal(*id);
            out.append(digits.as_str());
            out.append("}");
            proof {
                assert(out@ =~= message_json(*m));
            }
            out
        },
        ServerMessage::History { start, operations } => {
            let mut out = String::new();
            out.append("{\"History\":{\"start\":");
            let digits = decimal(*start as u64);
            out.append(digits.as_str());
            out.append(",\"operations\":[");
            let ghost prefix = out@;
            let mut i: usize = 0;
            proof {
                assert(operations@.take(0) =~= Seq::<UserOperation>::empty());
                assert(out@ =~= prefix + entries_json(operations@.take(0)));
            }
            while i < operations.len()
                invariant
                    0 <= i <= operations@.len(),
                    forall|k: int|
                        0 <= k < operations@.len() ==> (#[trigger] operations@[k]).operation.wf(),
                    out@ == prefix + entries_json(operations@.take(i as int)),
                decreases operations@.len() - i,
            {
                let ghost before = out@;
                if i > 0 {
                    out.append(",");
                }
                let entry = encode_entry(&operations[i]);
                out.append(entry.as_str());
                proof {
                    let t = operations@.take(i + 1);
                    assert(t.drop_last() =~= operations@.take(i as int));
                    assert(t.last() == operations@[i as int]);
                    assert(out@ =~= prefix + entries_json(t));
                }
                i += 1;
            }
            out.append("]}}");
            proof {
                assert(operations@.take(i as int) =~= operations@);
                assert(out@ =~= message_json(*m));
            }
            out
        },
    }
}

} // verus!

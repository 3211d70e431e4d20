//! The Windows loopback pair this engine creates through Microsoft's MIDI tools, and how an
//! existing pair is recognised among the ports.
use vstd::prelude::*;

verus! {

/// The loopback pair's port this engine sends to.
pub const SEND: &'static str = "Phasecraft Send";
/// The loopback pair's port a host receives from.
pub const RECEIVE: &'static str = "Phasecraft Receive";
/// Where Microsoft's MIDI tools are published.
pub const TOOLS_URL: &'static str = "https://microsoft.github.io/MIDI/";

pub open spec fn send_name() -> Seq<char> {
    "Phasecraft Send"@
}

pub open spec fn receive_name() -> Seq<char> {
    "Phasecraft Receive"@
}

/// What the visible ports say of the pair: both ends present (the send port is used), neither
/// (the pair must be created), or only one, which is refused.
pub open spec fn pair_state(ports: Seq<Seq<char>>) -> Result<Option<Seq<char>>, Seq<char>> {
    let send = ports.contains(send_name());
    let receive = ports.contains(receive_name());
    if send && receive {
        Ok(Some(send_name()))
    } else if !send && !receive {
        Ok(None)
    } else {
        Err("Only one Phasecraft endpoint is visible. Check the pair in Windows MIDI Settings before retrying; existing ports were left unchanged."@)
    }
}

pub open spec fn names_view(v: Seq<String>) -> Seq<Seq<char>> {
    Seq::new(v.len(), |i: int| v[i]@)
}

fn find(ports: &Vec<String>, wanted: &str) -> (r: bool)
    ensures
        r == names_view(ports@).contains(wanted@),
{
    let mut i: usize = 0;
    while i < ports.len()
        invariant
            i <= ports@.len(),
            forall|j: int| 0 <= j < i ==> ports@[j]@ != wanted@,
        decreases ports@.len() - i,
    {
        if crate::text::same_text(ports[i].as_str(), wanted) {
            proof {
                assert(names_view(ports@)[i as int] == wanted@);
            }
            return true;
        }
        i += 1;
    }
    proof {
        if names_view(ports@).contains(wanted@) {
            let j = choose|j: int| 0 <= j < names_view(ports@).len() && names_view(ports@)[j] == wanted@;
            assert(ports@[j]@ == wanted@);
        }
    }
    false
}

/// The existing pair among `ports`, by name.
pub fn existing(ports: &Vec<String>) -> (r: Result<Option<String>, String>)
    ensures
        match pair_state(names_view(ports@)) {
            Ok(Some(name)) => r matches Ok(Some(s)) && s@ == name,
            Ok(None) => r matches Ok(None),
            Err(m) => r matches Err(e) && e@ == m,
        },
{
    proof {
        reveal_strlit("Phasecraft Send");
        reveal_strlit("Phasecraft Receive");
        reveal_strlit("Only one Phasecraft endpoint is visible. Check the pair in Windows MIDI Settings before retrying; existing ports were left unchanged.");
    }
    let send = find(ports, "Phasecraft Send");
    let receive = find(ports, "Phasecraft Receive");
    if send && receive {
        Ok(Some(String::from_str("Phasecraft Send")))
    } else if !send && !receive {
        Ok(None)
    } else {
        Err(String::from_str("Only one Phasecraft endpoint is visible. Check the pair in Windows MIDI Settings before retrying; existing ports were left unchanged."))
    }
}

} // verus!

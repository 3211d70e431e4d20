//! The desktop shell's own rules: where a project's MIDI goes, and when a release is another
//! build.
use vstd::prelude::*;

use crate::text::{blank, is_blank, same_text};
use vstd::string::StringSliceAdditionalSpecFns;

verus! {

/// Hardware preferences, local to one machine and kept per project.
#[derive(Clone, Debug, Default, PartialEq, Eq)]
pub struct Routing {
    pub port: Option<String>,
    pub virtual_port: bool,
    pub silent: bool,
    pub send_clock: bool,
}

/// The check of a routing: at most one destination, a named port not blank, and no virtual
/// port where the platform has none.
pub open spec fn routing_check(r: Routing, on_windows: bool) -> Result<(), Seq<char>> {
    let chosen = (if r.port is Some { 1int } else { 0 }) + (if r.virtual_port { 1int } else { 0 })
        + (if r.silent { 1int } else { 0 });
    if (r.port matches Some(p) && blank(p@)) || chosen > 1 {
        Err("Choose one MIDI destination or silent preview"@)
    } else if on_windows && r.virtual_port {
        Err("Select an existing MIDI port on Windows"@)
    } else {
        Ok(())
    }
}

impl Routing {
    /// Checks the routing for a platform; `on_windows` says whether it is Windows.
    pub fn validate(&self, on_windows: bool) -> (r: Result<(), String>)
        ensures
            match routing_check(*self, on_windows) {
                Ok(()) => r is Ok,
                Err(m) => r matches Err(e) && e@ == m,
            },
    {
        proof {
            reveal_strlit("Choose one MIDI destination or silent preview");
            reveal_strlit("Select an existing MIDI port on Windows");
        }
        let blank_port = match &self.port {
            Some(p) => is_blank(p.as_str()),
            None => false,
        };
        let chosen: u8 = (if self.port.is_some() { 1u8 } else { 0 }) + (if self.virtual_port { 1u8 } else { 0 })
            + (if self.silent { 1u8 } else { 0 });
        if blank_port || chosen > 1 {
            return Err(String::from_str("Choose one MIDI destination or silent preview"));
        }
        if on_windows && self.virtual_port {
            return Err(String::from_str("Select an existing MIDI port on Windows"));
        }
        Ok(())
    }
}

/// Whether a byte is an ASCII hexadecimal digit.
pub open spec fn is_hex(b: u8) -> bool {
    (0x30 <= b <= 0x39) || (0x41 <= b <= 0x46) || (0x61 <= b <= 0x66)
}

/// A release is another build when its commit is a full forty-digit hex id that differs from
/// this build's full commit; a version, a short prefix or an unknown commit never is.
pub open spec fn is_different_commit(remote: Seq<u8>, local: Seq<u8>) -> bool {
    &&& remote.len() == 40
    &&& forall|i: int| 0 <= i < remote.len() ==> is_hex(#[trigger] remote[i])
    &&& local.len() == 40
    &&& remote != local
}

pub fn different_commit(remote: &str, local: &str) -> (r: bool)
    ensures
        r == is_different_commit(remote.spec_bytes(), local.spec_bytes()),
{
    let a = remote.as_bytes();
    let b = local.as_bytes();
    if a.len() != 40 || b.len() != 40 {
        return false;
    }
    let mut i: usize = 0;
    while i < 40
        invariant
            i <= 40,
            a@.len() == 40,
            b@.len() == 40,
            a@ == remote.spec_bytes(),
            b@ == local.spec_bytes(),
            forall|j: int| 0 <= j < i ==> is_hex(#[trigger] a@[j]),
        decreases 40 - i,
    {
        let c = a[i];
        if !((0x30 <= c && c <= 0x39) || (0x41 <= c && c <= 0x46) || (0x61 <= c && c <= 0x66)) {
            return false;
        }
        i += 1;
    }
    let mut j: usize = 0;
    while j < 40
        invariant
            j <= 40,
            a@.len() == 40,
            b@.len() == 40,
            a@ == remote.spec_bytes(),
            b@ == local.spec_bytes(),
            forall|x: int| 0 <= x < 40 ==> is_hex(#[trigger] a@[x]),
            forall|x: int| 0 <= x < j ==> a@[x] == b@[x],
        decreases 40 - j,
    {
        if a[j] != b[j] {
            return true;
        }
        j += 1;
    }
    proof {
        assert(a@ =~= b@);
    }
    false
}

/// Each project's routing, one entry per project path.
#[derive(Clone, Debug, Default)]
pub struct Settings {
    pub projects: Vec<(String, Routing)>,
}

/// No project path occurs twice.
pub open spec fn paths_unique(s: Seq<(String, Routing)>) -> bool {
    forall|i: int, j: int| 0 <= i < j < s.len() ==> (#[trigger] s[i]).0@ != (#[trigger] s[j]).0@
}

/// The routing kept for `project`, if any.
pub open spec fn routing_of(s: Seq<(String, Routing)>, project: Seq<char>) -> Option<Routing> {
    if exists|i: int| 0 <= i < s.len() && (#[trigger] s[i]).0@ == project {
        Some(s[choose|i: int| 0 <= i < s.len() && (#[trigger] s[i]).0@ == project].1)
    } else {
        None
    }
}

/// The entries after keeping `routing` for `project`: its entry replaced where it has one,
/// else a new entry at the end.
pub open spec fn routed(s: Seq<(String, Routing)>, project: String, routing: Routing) -> Seq<(String, Routing)> {
    if exists|i: int| 0 <= i < s.len() && (#[trigger] s[i]).0@ == project@ {
        s.update(choose|i: int| 0 <= i < s.len() && (#[trigger] s[i]).0@ == project@, (project, routing))
    } else {
        s.push((project, routing))
    }
}

impl Settings {
    /// Keeps `routing` for `project` once it passes the check for the platform; a refused
    /// routing leaves every project as it was.
    pub fn route(&mut self, project: String, routing: Routing, on_windows: bool) -> (r: Result<(), String>)
        requires
            paths_unique(old(self).projects@),
        ensures
            paths_unique(final(self).projects@),
            match routing_check(routing, on_windows) {
                Ok(()) => r is Ok && final(self).projects@ == routed(old(self).projects@, project, routing),
                Err(m) => r matches Err(e) && e@ == m && final(self).projects@ == old(self).projects@,
            },
    {
        match routing.validate(on_windows) {
            Ok(()) => {},
            Err(e) => return Err(e),
        }
        let mut i: usize = 0;
        while i < self.projects.len()
            invariant
                i <= self.projects@.len(),
                self.projects@ == old(self).projects@,
                paths_unique(self.projects@),
                routing_check(routing, on_windows) is Ok,
                forall|j: int| 0 <= j < i ==> (#[trigger] self.projects@[j]).0@ != project@,
            decreases self.projects@.len() - i,
        {
            if same_text(self.projects[i].0.as_str(), project.as_str()) {
                proof {
                    let s = old(self).projects@;
                    assert(s[i as int].0@ == project@);
                    let k = choose|k: int| 0 <= k < s.len() && (#[trigger] s[k]).0@ == project@;
                    assert(k == i as int) by {
                        if k < i {
                            assert(s[k].0@ != project@);
                        } else if k > i {
                            assert(s[i as int].0@ != s[k].0@);
                        }
                    }
                }
                let ghost before = self.projects@;
                self.projects.set(i, (project, routing));
                proof {
                    assert forall|a: int, b: int| 0 <= a < b < self.projects@.len() implies
                        (#[trigger] self.projects@[a]).0@ != (#[trigger] self.projects@[b]).0@ by {
                        assert(before[a].0@ != before[b].0@);
                    }
                }
                return Ok(());
            }
            i += 1;
        }
        self.projects.push((project, routing));
        Ok(())
    }
}

/// Keeping a routing for one project reads back that routing for it, and leaves every other
/// project's routing as it was.
pub proof fn lemma_routing_reads_back(s: Seq<(String, Routing)>, project: String, routing: Routing, other: Seq<char>)
    requires
        paths_unique(s),
    ensures
        paths_unique(routed(s, project, routing)),
        routing_of(routed(s, project, routing), project@) == Some(routing),
        other != project@ ==> routing_of(routed(s, project, routing), other) == routing_of(s, other),
{
    let n = routed(s, project, routing);
    if exists|i: int| 0 <= i < s.len() && (#[trigger] s[i]).0@ == project@ {
        let k = choose|i: int| 0 <= i < s.len() && (#[trigger] s[i]).0@ == project@;
        assert forall|a: int, b: int| 0 <= a < b < n.len() implies (#[trigger] n[a]).0@ != (#[trigger] n[b]).0@ by {
            assert(s[a].0@ != s[b].0@);
        }
        assert(n[k].0@ == project@);
        let j = choose|i: int| 0 <= i < n.len() && (#[trigger] n[i]).0@ == project@;
        assert(j == k) by {
            if j != k {
                if j < k { assert(n[j].0@ != n[k].0@); } else { assert(n[k].0@ != n[j].0@); }
            }
        }
        if other != project@ {
            if exists|i: int| 0 <= i < s.len() && (#[trigger] s[i]).0@ == other {
                let a = choose|i: int| 0 <= i < s.len() && (#[trigger] s[i]).0@ == other;
                assert(a != k);
                assert(n[a].0@ == other);
                let b = choose|i: int| 0 <= i < n.len() && (#[trigger] n[i]).0@ == other;
                assert(a == b) by {
                    if a < b { assert(n[a].0@ != n[b].0@); } else if b < a { assert(n[b].0@ != n[a].0@); }
                }
            } else {
                assert forall|i: int| 0 <= i < n.len() implies (#[trigger] n[i]).0@ != other by {
                    if i != k { assert(s[i].0@ != other); }
                }
            }
        }
    } else {
        assert forall|a: int, b: int| 0 <= a < b < n.len() implies (#[trigger] n[a]).0@ != (#[trigger] n[b]).0@ by {
            if b < s.len() { assert(s[a].0@ != s[b].0@); } else { assert(s[a].0@ != project@); }
        }
        let last = s.len() as int;
        assert(n[last].0@ == project@);
        let j = choose|i: int| 0 <= i < n.len() && (#[trigger] n[i]).0@ == project@;
        assert(j == last) by {
            if j < last { assert(s[j].0@ != project@); }
        }
        if other != project@ {
            if exists|i: int| 0 <= i < s.len() && (#[trigger] s[i]).0@ == other {
                let a = choose|i: int| 0 <= i < s.len() && (#[trigger] s[i]).0@ == other;
                assert(n[a].0@ == other);
                let b = choose|i: int| 0 <= i < n.len() && (#[trigger] n[i]).0@ == other;
                assert(a == b) by {
                    if a < b { assert(n[a].0@ != n[b].0@); } else if b < a { assert(n[b].0@ != n[a].0@); }
                }
            } else {
                assert forall|i: int| 0 <= i < n.len() implies (#[trigger] n[i]).0@ != other by {
                    if i < last { assert(s[i].0@ != other); }
                }
            }
        }
    }
}

} // verus!
